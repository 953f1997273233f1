//! The host side of the Metal kernels: what each batch or chain hands to the
//! device, and how the words that come back are read.
//!
//! Every value travels as an integer: a binary64 number as its pattern, a
//! binary32 number as its pattern extended by zeros, a signed integer in two's
//! complement, the outcome of a comparison as 0 or 1.
use crate::RoundingMode;
use vstd::prelude::*;

verus! {

/// Operations that each thread of a chain kernel runs.
pub const CHAIN_OPS_PER_THREAD: usize = 1024;

/// One operand and a mode, as the kernels lay them out.
#[derive(Debug, Clone, Copy, PartialEq, Eq, Structural)]
pub struct Op1Input {
    pub a: u64,
    pub mode: u32,
    pub _pad: u32,
}

/// Two operands and a mode, as the kernels lay them out.
#[derive(Debug, Clone, Copy, PartialEq, Eq, Structural)]
pub struct Op2Input {
    pub a: u64,
    pub b: u64,
    pub mode: u32,
    pub _pad: u32,
}

/// Three operands and a mode, as the kernels lay them out.
#[derive(Debug, Clone, Copy, PartialEq, Eq, Structural)]
pub struct Op3Input {
    pub a: u64,
    pub b: u64,
    pub c: u64,
    pub mode: u32,
    pub _pad: u32,
}

/// What is bound to a kernel's input slot.
#[derive(Debug)]
pub enum Payload {
    /// One record for each thread.
    Op1(Vec<Op1Input>),
    /// One record for each thread.
    Op2(Vec<Op2Input>),
    /// One record for each thread.
    Op3(Vec<Op3Input>),
    /// A seed that all threads share.
    Seed(u64, u64),
}

/// A kernel to run, one thread for each word of output.
#[derive(Debug)]
pub struct Launch {
    pub kernel: &'static str,
    pub threads: usize,
    pub payload: Payload,
}

/// The record of one operand.
pub open spec fn op1(a: u64, mode: u32) -> Op1Input {
    Op1Input { a, mode, _pad: 0 }
}

/// The record of two operands.
pub open spec fn op2(a: u64, b: u64, mode: u32) -> Op2Input {
    Op2Input { a, b, mode, _pad: 0 }
}

/// The record of three operands.
pub open spec fn op3(a: u64, b: u64, c: u64, mode: u32) -> Op3Input {
    Op3Input { a, b, c, mode, _pad: 0 }
}

/// The records of operands and modes, in order.
pub open spec fn op1_records(pairs: Seq<(u64, RoundingMode)>) -> Seq<Op1Input> {
    pairs.map_values(|p: (u64, RoundingMode)| op1(p.0, p.1.number()))
}

/// The records of pairs of operands and modes, in order.
pub open spec fn op2_records(pairs: Seq<(u64, u64, RoundingMode)>) -> Seq<Op2Input> {
    pairs.map_values(|p: (u64, u64, RoundingMode)| op2(p.0, p.1, p.2.number()))
}

/// The records of triples of operands and modes, in order.
pub open spec fn op3_records(triples: Seq<(u64, u64, u64, RoundingMode)>) -> Seq<Op3Input> {
    triples.map_values(|p: (u64, u64, u64, RoundingMode)| op3(p.0, p.1, p.2, p.3.number()))
}

/// The records of pairs of operands that no mode goes with, in order.
pub open spec fn pair_records(pairs: Seq<(u64, u64)>) -> Seq<Op2Input> {
    pairs.map_values(|p: (u64, u64)| op2(p.0, p.1, 0))
}

/// The records of signed integers and modes, in order.
pub open spec fn integer_records(pairs: Seq<(i64, RoundingMode)>) -> Seq<Op1Input> {
    pairs.map_values(|p: (i64, RoundingMode)| op1(to_wire(p.0) as u64, p.1.number()))
}

/// The records of binary32 numbers, in order.
pub open spec fn binary32_records(inputs: Seq<u32>) -> Seq<Op1Input> {
    inputs.map_values(|x: u32| op1(x as u64, 0))
}

/// A signed integer in two's complement.
pub open spec fn to_wire(x: i64) -> int {
    if x < 0 {
        x + 0x1_0000_0000_0000_0000
    } else {
        x as int
    }
}

/// The signed integer that a word in two's complement stands for.
pub open spec fn from_wire(w: u64) -> int {
    if w < 0x8000_0000_0000_0000 {
        w as int
    } else {
        w - 0x1_0000_0000_0000_0000
    }
}

/// A signed integer comes back from its word.
pub proof fn wire_round_trips(x: i64)
    ensures
        0 <= to_wire(x) <= u64::MAX,
        from_wire(to_wire(x) as u64) == x,
{
}

/// A signed integer and its word differ by a multiple of `2^64`, so they have the
/// same bits.
pub proof fn wire_is_congruent(x: i64, w: u64)
    ensures
        0 <= to_wire(x) < 0x1_0000_0000_0000_0000,
        to_wire(x) == x || to_wire(x) == x + 0x1_0000_0000_0000_0000,
        -0x8000_0000_0000_0000 <= from_wire(w) < 0x8000_0000_0000_0000,
        from_wire(w) == w || from_wire(w) == w - 0x1_0000_0000_0000_0000,
{
}

impl Launch {
    /// The launch runs `kernel` on these records of one operand.
    pub open spec fn on_op1(self, kernel: Seq<char>, records: Seq<Op1Input>) -> bool {
        &&& self.kernel@ == kernel
        &&& self.threads == records.len()
        &&& self.payload matches Payload::Op1(v) && v@ == records
    }

    /// The launch runs `kernel` on these records of two operands.
    pub open spec fn on_op2(self, kernel: Seq<char>, records: Seq<Op2Input>) -> bool {
        &&& self.kernel@ == kernel
        &&& self.threads == records.len()
        &&& self.payload matches Payload::Op2(v) && v@ == records
    }

    /// The launch runs `kernel` on these records of three operands.
    pub open spec fn on_op3(self, kernel: Seq<char>, records: Seq<Op3Input>) -> bool {
        &&& self.kernel@ == kernel
        &&& self.threads == records.len()
        &&& self.payload matches Payload::Op3(v) && v@ == records
    }

    /// The launch runs `kernel` on so many threads that share a seed.
    pub open spec fn on_seed(self, kernel: Seq<char>, threads: usize, seed: (u64, u64)) -> bool {
        &&& self.kernel@ == kernel
        &&& self.threads == threads
        &&& self.payload matches Payload::Seed(x, y) && x == seed.0 && y == seed.1
    }
}

/// The last word of a record: the mode below the padding.
pub open spec fn tail(mode: u32, pad: u32) -> int {
    mode + pad * 0x1_0000_0000
}

/// `words` are the records of one operand, two words each.
pub open spec fn lays_out_op1(words: Seq<u64>, records: Seq<Op1Input>) -> bool {
    &&& words.len() == 2 * records.len()
    &&& forall|k: int|
        0 <= k < records.len() ==> {
            let r = #[trigger] records[k];
            words[2 * k] == r.a && words[2 * k + 1] == tail(r.mode, r._pad)
        }
}

/// `words` are the records of two operands, three words each.
pub open spec fn lays_out_op2(words: Seq<u64>, records: Seq<Op2Input>) -> bool {
    &&& words.len() == 3 * records.len()
    &&& forall|k: int|
        0 <= k < records.len() ==> {
            let r = #[trigger] records[k];
            words[3 * k] == r.a && words[3 * k + 1] == r.b && words[3 * k + 2] == tail(
                r.mode,
                r._pad,
            )
        }
}

/// `words` are the records of three operands, four words each.
pub open spec fn lays_out_op3(words: Seq<u64>, records: Seq<Op3Input>) -> bool {
    &&& words.len() == 4 * records.len()
    &&& forall|k: int|
        0 <= k < records.len() ==> {
            let r = #[trigger] records[k];
            words[4 * k] == r.a && words[4 * k + 1] == r.b && words[4 * k + 2] == r.c && words[4 * k
                + 3] == tail(r.mode, r._pad)
        }
}

/// Records of one operand are read back from their words: the operand is the first
/// word, the mode the lower and the padding the upper half of the second.
pub proof fn op1_words_give_back_the_records(words: Seq<u64>, records: Seq<Op1Input>, k: int)
    requires
        lays_out_op1(words, records),
    ensures
        words.len() == 2 * records.len(),
        0 <= k < records.len() ==> {
            let r = records[k];
            &&& r.a == words[2 * k]
            &&& r.mode == words[2 * k + 1] as int % 0x1_0000_0000
            &&& r._pad == words[2 * k + 1] as int / 0x1_0000_0000
        },
{
    if 0 <= k < records.len() {
        let r = records[k];
        assert(words[2 * k + 1] == tail(r.mode, r._pad));
    }
}

/// Records of two operands are read back from their words: the operands are the
/// first two words, the mode the lower and the padding the upper half of the third.
pub proof fn op2_words_give_back_the_records(words: Seq<u64>, records: Seq<Op2Input>, k: int)
    requires
        lays_out_op2(words, records),
    ensures
        words.len() == 3 * records.len(),
        0 <= k < records.len() ==> {
            let r = records[k];
            &&& r.a == words[3 * k]
            &&& r.b == words[3 * k + 1]
            &&& r.mode == words[3 * k + 2] as int % 0x1_0000_0000
            &&& r._pad == words[3 * k + 2] as int / 0x1_0000_0000
        },
{
    if 0 <= k < records.len() {
        let r = records[k];
        assert(words[3 * k + 2] == tail(r.mode, r._pad));
    }
}

/// Records of three operands are read back from their words: the operands are the
/// first three words, the mode the lower and the padding the upper half of the
/// fourth.
pub proof fn op3_words_give_back_the_records(words: Seq<u64>, records: Seq<Op3Input>, k: int)
    requires
        lays_out_op3(words, records),
    ensures
        words.len() == 4 * records.len(),
        0 <= k < records.len() ==> {
            let r = records[k];
            &&& r.a == words[4 * k]
            &&& r.b == words[4 * k + 1]
            &&& r.c == words[4 * k + 2]
            &&& r.mode == words[4 * k + 3] as int % 0x1_0000_0000
            &&& r._pad == words[4 * k + 3] as int / 0x1_0000_0000
        },
{
    if 0 <= k < records.len() {
        let r = records[k];
        assert(words[4 * k + 3] == tail(r.mode, r._pad));
    }
}

/// The same words are never those of different records.
pub proof fn words_determine_the_records(
    words: Seq<u64>,
    ones: Seq<Op1Input>,
    ones2: Seq<Op1Input>,
    twos: Seq<Op2Input>,
    twos2: Seq<Op2Input>,
    threes: Seq<Op3Input>,
    threes2: Seq<Op3Input>,
)
    ensures
        lays_out_op1(words, ones) && lays_out_op1(words, ones2) ==> ones == ones2,
        lays_out_op2(words, twos) && lays_out_op2(words, twos2) ==> twos == twos2,
        lays_out_op3(words, threes) && lays_out_op3(words, threes2) ==> threes == threes2,
{
    if lays_out_op1(words, ones) && lays_out_op1(words, ones2) {
        assert forall|k: int| 0 <= k < ones.len() implies ones[k] == ones2[k] by {
            op1_words_give_back_the_records(words, ones, k);
            op1_words_give_back_the_records(words, ones2, k);
        }
        assert(ones =~= ones2);
    }
    if lays_out_op2(words, twos) && lays_out_op2(words, twos2) {
        assert forall|k: int| 0 <= k < twos.len() implies twos[k] == twos2[k] by {
            op2_words_give_back_the_records(words, twos, k);
            op2_words_give_back_the_records(words, twos2, k);
        }
        assert(twos =~= twos2);
    }
    if lays_out_op3(words, threes) && lays_out_op3(words, threes2) {
        assert forall|k: int| 0 <= k < threes.len() implies threes[k] == threes2[k] by {
            op3_words_give_back_the_records(words, threes, k);
            op3_words_give_back_the_records(words, threes2, k);
        }
        assert(threes =~= threes2);
    }
}

/// A batch of pairs runs one thread for each pair, and the words that thread `i`
/// reads are the operands of pair `i` and the number of its mode.
pub proof fn each_pair_is_uploaded(
    kernel: Seq<char>,
    pairs: Seq<(u64, u64, RoundingMode)>,
    l: Launch,
    words: Seq<u64>,
    i: int,
)
    requires
        l.on_op2(kernel, op2_records(pairs)),
        l.payload matches Payload::Op2(v) ==> lays_out_op2(words, v@),
    ensures
        l.kernel@ == kernel,
        l.threads == pairs.len(),
        l.payload matches Payload::Op2(v) && v@.len() == pairs.len(),
        words.len() == 3 * pairs.len(),
        0 <= i < pairs.len() ==> {
            &&& words[3 * i] == pairs[i].0
            &&& words[3 * i + 1] == pairs[i].1
            &&& words[3 * i + 2] == match pairs[i].2 {
                RoundingMode::Nearest => 0int,
                RoundingMode::Down => 1,
                RoundingMode::Up => 2,
                RoundingMode::Zero => 3,
            }
        },
{
    if 0 <= i < pairs.len() {
        assert(op2_records(pairs)[i] == op2(pairs[i].0, pairs[i].1, pairs[i].2.number()));
    }
}

/// A batch of pairs that no mode goes with runs one thread for each pair, and the
/// words that thread `i` reads are the operands of pair `i` and zero.
pub proof fn each_compared_pair_is_uploaded(
    kernel: Seq<char>,
    pairs: Seq<(u64, u64)>,
    l: Launch,
    words: Seq<u64>,
    i: int,
)
    requires
        l.on_op2(kernel, pair_records(pairs)),
        l.payload matches Payload::Op2(v) ==> lays_out_op2(words, v@),
    ensures
        l.kernel@ == kernel,
        l.threads == pairs.len(),
        l.payload matches Payload::Op2(v) && v@.len() == pairs.len(),
        words.len() == 3 * pairs.len(),
        0 <= i < pairs.len() ==> {
            &&& words[3 * i] == pairs[i].0
            &&& words[3 * i + 1] == pairs[i].1
            &&& words[3 * i + 2] == 0
        },
{
    if 0 <= i < pairs.len() {
        assert(pair_records(pairs)[i] == op2(pairs[i].0, pairs[i].1, 0));
    }
}

/// A batch of single operands runs one thread for each, and the words that thread
/// `i` reads are operand `i` and the number of its mode.
pub proof fn each_operand_is_uploaded(
    kernel: Seq<char>,
    pairs: Seq<(u64, RoundingMode)>,
    l: Launch,
    words: Seq<u64>,
    i: int,
)
    requires
        l.on_op1(kernel, op1_records(pairs)),
        l.payload matches Payload::Op1(v) ==> lays_out_op1(words, v@),
    ensures
        l.kernel@ == kernel,
        l.threads == pairs.len(),
        l.payload matches Payload::Op1(v) && v@.len() == pairs.len(),
        words.len() == 2 * pairs.len(),
        0 <= i < pairs.len() ==> {
            &&& words[2 * i] == pairs[i].0
            &&& words[2 * i + 1] == match pairs[i].1 {
                RoundingMode::Nearest => 0int,
                RoundingMode::Down => 1,
                RoundingMode::Up => 2,
                RoundingMode::Zero => 3,
            }
        },
{
    if 0 <= i < pairs.len() {
        assert(op1_records(pairs)[i] == op1(pairs[i].0, pairs[i].1.number()));
    }
}

/// A batch of triples runs one thread for each triple, and the words that thread
/// `i` reads are the operands of triple `i` and the number of its mode.
pub proof fn each_triple_is_uploaded(
    kernel: Seq<char>,
    triples: Seq<(u64, u64, u64, RoundingMode)>,
    l: Launch,
    words: Seq<u64>,
    i: int,
)
    requires
        l.on_op3(kernel, op3_records(triples)),
        l.payload matches Payload::Op3(v) ==> lays_out_op3(words, v@),
    ensures
        l.kernel@ == kernel,
        l.threads == triples.len(),
        l.payload matches Payload::Op3(v) && v@.len() == triples.len(),
        words.len() == 4 * triples.len(),
        0 <= i < triples.len() ==> {
            &&& words[4 * i] == triples[i].0
            &&& words[4 * i + 1] == triples[i].1
            &&& words[4 * i + 2] == triples[i].2
            &&& words[4 * i + 3] == match triples[i].3 {
                RoundingMode::Nearest => 0int,
                RoundingMode::Down => 1,
                RoundingMode::Up => 2,
                RoundingMode::Zero => 3,
            }
        },
{
    if 0 <= i < triples.len() {
        assert(op3_records(triples)[i] == op3(
            triples[i].0,
            triples[i].1,
            triples[i].2,
            triples[i].3.number(),
        ));
    }
}

/// A batch of signed integers runs one thread for each, and the words that thread
/// `i` reads are integer `i`, up to a multiple of `2^64`, and the number of its mode.
pub proof fn each_integer_is_uploaded(
    kernel: Seq<char>,
    pairs: Seq<(i64, RoundingMode)>,
    l: Launch,
    words: Seq<u64>,
    i: int,
)
    requires
        l.on_op1(kernel, integer_records(pairs)),
        l.payload matches Payload::Op1(v) ==> lays_out_op1(words, v@),
    ensures
        l.kernel@ == kernel,
        l.threads == pairs.len(),
        l.payload matches Payload::Op1(v) && v@.len() == pairs.len(),
        words.len() == 2 * pairs.len(),
        0 <= i < pairs.len() ==> {
            &&& words[2 * i] == pairs[i].0 || words[2 * i] == pairs[i].0 + 0x1_0000_0000_0000_0000
            &&& words[2 * i + 1] == match pairs[i].1 {
                RoundingMode::Nearest => 0int,
                RoundingMode::Down => 1,
                RoundingMode::Up => 2,
                RoundingMode::Zero => 3,
            }
        },
{
    if 0 <= i < pairs.len() {
        assert(integer_records(pairs)[i] == op1(
            to_wire(pairs[i].0) as u64,
            pairs[i].1.number(),
        ));
    }
}

/// A batch of binary32 numbers runs one thread for each, and the words that thread
/// `i` reads are pattern `i` and zero.
pub proof fn each_binary32_is_uploaded(
    kernel: Seq<char>,
    inputs: Seq<u32>,
    l: Launch,
    words: Seq<u64>,
    i: int,
)
    requires
        l.on_op1(kernel, binary32_records(inputs)),
        l.payload matches Payload::Op1(v) ==> lays_out_op1(words, v@),
    ensures
        l.kernel@ == kernel,
        l.threads == inputs.len(),
        l.payload matches Payload::Op1(v) && v@.len() == inputs.len(),
        words.len() == 2 * inputs.len(),
        0 <= i < inputs.len() ==> words[2 * i] == inputs[i] && words[2 * i + 1] == 0,
{
    if 0 <= i < inputs.len() {
        assert(binary32_records(inputs)[i] == op1(inputs[i] as u64, 0));
    }
}

/// A chain runs as many threads as it is asked for, on the seed that it is given.
pub proof fn the_seed_is_shared(
    kernel: Seq<char>,
    threads: usize,
    seed: (u64, u64),
    l: Launch,
)
    requires
        l.on_seed(kernel, threads, seed),
    ensures
        l.kernel@ == kernel,
        l.threads == threads,
        l.payload matches Payload::Seed(x, y) && x == seed.0 && y == seed.1,
{
}

impl Payload {
    /// The contents of the input slot in 64-bit words, the lesser half of a word
    /// first in memory.
    pub fn words(&self) -> (words: Vec<u64>)
        ensures
            match self {
                Payload::Op1(v) => lays_out_op1(words@, v@),
                Payload::Op2(v) => lays_out_op2(words@, v@),
                Payload::Op3(v) => lays_out_op3(words@, v@),
                Payload::Seed(x, y) => words@ == seq![*x, *y],
            },
    {
        let mut words: Vec<u64> = Vec::new();
        match self {
            Payload::Op1(v) => {
                for i in 0..v.len()
                    invariant
                        lays_out_op1(words@, v@.take(i as int)),
                {
                    let r = v[i];
                    words.push(r.a);
                    words.push(r.mode as u64 + r._pad as u64 * 0x1_0000_0000);
                    assert(forall|k: int|
                        0 <= k < i ==> #[trigger] v@.take(i + 1)[k] == v@.take(i as int)[k]);
                }
                assert(v@.take(v@.len() as int) =~= v@);
            },
            Payload::Op2(v) => {
                for i in 0..v.len()
                    invariant
                        lays_out_op2(words@, v@.take(i as int)),
                {
                    let r = v[i];
                    words.push(r.a);
                    words.push(r.b);
                    words.push(r.mode as u64 + r._pad as u64 * 0x1_0000_0000);
                    assert(forall|k: int|
                        0 <= k < i ==> #[trigger] v@.take(i + 1)[k] == v@.take(i as int)[k]);
                }
                assert(v@.take(v@.len() as int) =~= v@);
            },
            Payload::Op3(v) => {
                for i in 0..v.len()
                    invariant
                        lays_out_op3(words@, v@.take(i as int)),
                {
                    let r = v[i];
                    words.push(r.a);
                    words.push(r.b);
                    words.push(r.c);
                    words.push(r.mode as u64 + r._pad as u64 * 0x1_0000_0000);
                    assert(forall|k: int|
                        0 <= k < i ==> #[trigger] v@.take(i + 1)[k] == v@.take(i as int)[k]);
                }
                assert(v@.take(v@.len() as int) =~= v@);
            },
            Payload::Seed(x, y) => {
                words.push(*x);
                words.push(*y);
            },
        }
        words
    }
}

/// The size of a launch on the device.
#[derive(Debug, Clone, Copy, PartialEq, Eq, Structural)]
pub struct Grid {
    /// Bytes of the output buffer.
    pub out_bytes: u64,
    /// Threads in all.
    pub threads: u64,
    /// Threads in a group.
    pub threadgroup: u64,
}

/// The grid of a launch on a pipeline that executes `width` threads at a time:
/// one word of output for each thread, and groups of the pipeline's width where
/// there are enough threads. Without threads there is nothing to launch.
pub fn launch_grid(threads: usize, width: u64) -> (grid: Option<Grid>)
    requires
        threads * 8 <= usize::MAX,
    ensures
        grid is None == (threads == 0),
        grid matches Some(g) ==> {
            &&& g.out_bytes == 8 * threads
            &&& g.threads == threads
            &&& g.threadgroup == if width < threads { width as int } else { threads as int }
        },
{
    if threads == 0 {
        return None;
    }
    let n: u64 = threads as u64;
    let group: u64 = if width < n {
        width
    } else {
        n
    };
    Some(Grid { out_bytes: (threads * 8) as u64, threads: n, threadgroup: group })
}

/// Records of one operand.
pub fn op1_inputs(pairs: &[(u64, RoundingMode)]) -> (inputs: Vec<Op1Input>)
    ensures
        inputs@ == op1_records(pairs@),
{
    let mut inputs: Vec<Op1Input> = Vec::new();
    for i in 0..pairs.len()
        invariant
            inputs@ =~= op1_records(pairs@.take(i as int)),
    {
        let (a, m) = pairs[i];
        inputs.push(Op1Input { a, mode: m.code(), _pad: 0 });
    }
    assert(pairs@.take(pairs@.len() as int) =~= pairs@);
    inputs
}

/// Records of two operands.
pub fn op2_inputs(pairs: &[(u64, u64, RoundingMode)]) -> (inputs: Vec<Op2Input>)
    ensures
        inputs@ == op2_records(pairs@),
{
    let mut inputs: Vec<Op2Input> = Vec::new();
    for i in 0..pairs.len()
        invariant
            inputs@ =~= op2_records(pairs@.take(i as int)),
    {
        let (a, b, m) = pairs[i];
        inputs.push(Op2Input { a, b, mode: m.code(), _pad: 0 });
    }
    assert(pairs@.take(pairs@.len() as int) =~= pairs@);
    inputs
}

/// Records of two operands that no mode goes with.
fn pair_inputs(pairs: &[(u64, u64)]) -> (inputs: Vec<Op2Input>)
    ensures
        inputs@ == pair_records(pairs@),
{
    let mut inputs: Vec<Op2Input> = Vec::new();
    for i in 0..pairs.len()
        invariant
            inputs@ =~= pair_records(pairs@.take(i as int)),
    {
        let (a, b) = pairs[i];
        inputs.push(Op2Input { a, b, mode: 0, _pad: 0 });
    }
    assert(pairs@.take(pairs@.len() as int) =~= pairs@);
    inputs
}

/// A launch with a record of one operand for each thread.
fn dispatch_op1(kernel: &'static str, inputs: Vec<Op1Input>) -> (l: Launch)
    ensures
        l.on_op1(kernel@, inputs@),
{
    let threads: usize = inputs.len();
    Launch { kernel, threads, payload: Payload::Op1(inputs) }
}

/// A launch with a record of two operands for each thread.
fn dispatch_op2(kernel: &'static str, inputs: Vec<Op2Input>) -> (l: Launch)
    ensures
        l.on_op2(kernel@, inputs@),
{
    let threads: usize = inputs.len();
    Launch { kernel, threads, payload: Payload::Op2(inputs) }
}

/// A launch whose threads share a seed.
pub fn dispatch_chain(kernel: &'static str, threads: usize, seed: (u64, u64)) -> (l: Launch)
    ensures
        l.on_seed(kernel@, threads, seed),
{
    Launch { kernel, threads, payload: Payload::Seed(seed.0, seed.1) }
}

/// `a + b` for each pair.
#[must_use]
pub fn fadd_batch(pairs: &[(u64, u64, RoundingMode)]) -> (l: Launch)
    ensures
        l.on_op2("test_fadd"@, op2_records(pairs@)),
{
    dispatch_op2("test_fadd", op2_inputs(pairs))
}

/// `a - b` for each pair.
#[must_use]
pub fn fsub_batch(pairs: &[(u64, u64, RoundingMode)]) -> (l: Launch)
    ensures
        l.on_op2("test_fsub"@, op2_records(pairs@)),
{
    dispatch_op2("test_fsub", op2_inputs(pairs))
}

/// `a * b` for each pair.
#[must_use]
pub fn fmul_batch(pairs: &[(u64, u64, RoundingMode)]) -> (l: Launch)
    ensures
        l.on_op2("test_fmul"@, op2_records(pairs@)),
{
    dispatch_op2("test_fmul", op2_inputs(pairs))
}

/// `a / b` for each pair.
#[must_use]
pub fn fdiv_batch(pairs: &[(u64, u64, RoundingMode)]) -> (l: Launch)
    ensures
        l.on_op2("test_fdiv"@, op2_records(pairs@)),
{
    dispatch_op2("test_fdiv", op2_inputs(pairs))
}

/// The square root of each operand.
#[must_use]
pub fn fsqrt_batch(pairs: &[(u64, RoundingMode)]) -> (l: Launch)
    ensures
        l.on_op1("test_fsqrt"@, op1_records(pairs@)),
{
    dispatch_op1("test_fsqrt", op1_inputs(pairs))
}

/// `a * b + c` for each triple.
#[must_use]
pub fn fma_batch(triples: &[(u64, u64, u64, RoundingMode)]) -> (l: Launch)
    ensures
        l.on_op3("test_fma"@, op3_records(triples@)),
{
    let mut inputs: Vec<Op3Input> = Vec::new();
    for i in 0..triples.len()
        invariant
            inputs@ =~= op3_records(triples@.take(i as int)),
    {
        let (a, b, c, m) = triples[i];
        inputs.push(Op3Input { a, b, c, mode: m.code(), _pad: 0 });
    }
    assert(triples@.take(triples@.len() as int) =~= triples@);
    let threads: usize = inputs.len();
    Launch { kernel: "test_fma", threads, payload: Payload::Op3(inputs) }
}

/// Each signed integer in binary64.
#[must_use]
pub fn cvt_i64_to_f64_batch(pairs: &[(i64, RoundingMode)]) -> (l: Launch)
    ensures
        l.on_op1("test_cvt_i64_to_f64"@, integer_records(pairs@)),
{
    let mut inputs: Vec<Op1Input> = Vec::new();
    for i in 0..pairs.len()
        invariant
            inputs@ =~= integer_records(pairs@.take(i as int)),
    {
        let (x, m) = pairs[i];
        let a: u64 = if x < 0 {
            (x as i128 + 0x1_0000_0000_0000_0000) as u64
        } else {
            x as u64
        };
        inputs.push(Op1Input { a, mode: m.code(), _pad: 0 });
    }
    assert(pairs@.take(pairs@.len() as int) =~= pairs@);
    dispatch_op1("test_cvt_i64_to_f64", inputs)
}

/// Each unsigned integer in binary64.
#[must_use]
pub fn cvt_u64_to_f64_batch(pairs: &[(u64, RoundingMode)]) -> (l: Launch)
    ensures
        l.on_op1("test_cvt_u64_to_f64"@, op1_records(pairs@)),
{
    dispatch_op1("test_cvt_u64_to_f64", op1_inputs(pairs))
}

/// Each binary64 number as a signed integer; `i64_results` reads the output.
#[must_use]
pub fn cvt_f64_to_i64_batch(pairs: &[(u64, RoundingMode)]) -> (l: Launch)
    ensures
        l.on_op1("test_cvt_f64_to_i64"@, op1_records(pairs@)),
{
    dispatch_op1("test_cvt_f64_to_i64", op1_inputs(pairs))
}

/// Each binary32 number in binary64. The kernel ignores the mode.
#[must_use]
pub fn cvt_f32_to_f64_batch(inputs: &[u32]) -> (l: Launch)
    ensures
        l.on_op1("test_cvt_f32_to_f64"@, binary32_records(inputs@)),
{
    let mut records: Vec<Op1Input> = Vec::new();
    for i in 0..inputs.len()
        invariant
            records@ =~= binary32_records(inputs@.take(i as int)),
    {
        records.push(Op1Input { a: inputs[i] as u64, mode: 0, _pad: 0 });
    }
    assert(inputs@.take(inputs@.len() as int) =~= inputs@);
    dispatch_op1("test_cvt_f32_to_f64", records)
}

/// Each binary64 number in binary32; `u32_results` reads the output.
#[must_use]
pub fn cvt_f64_to_f32_batch(pairs: &[(u64, RoundingMode)]) -> (l: Launch)
    ensures
        l.on_op1("test_cvt_f64_to_f32"@, op1_records(pairs@)),
{
    dispatch_op1("test_cvt_f64_to_f32", op1_inputs(pairs))
}

/// `a == b` for each pair; `bool_results` reads the output.
#[must_use]
pub fn feq_batch(pairs: &[(u64, u64)]) -> (l: Launch)
    ensures
        l.on_op2("test_feq"@, pair_records(pairs@)),
{
    dispatch_op2("test_feq", pair_inputs(pairs))
}

/// `a < b` for each pair; `bool_results` reads the output.
#[must_use]
pub fn flt_batch(pairs: &[(u64, u64)]) -> (l: Launch)
    ensures
        l.on_op2("test_flt"@, pair_records(pairs@)),
{
    dispatch_op2("test_flt", pair_inputs(pairs))
}

/// `a <= b` for each pair; `bool_results` reads the output.
#[must_use]
pub fn fle_batch(pairs: &[(u64, u64)]) -> (l: Launch)
    ensures
        l.on_op2("test_fle"@, pair_records(pairs@)),
{
    dispatch_op2("test_fle", pair_inputs(pairs))
}

/// `a > b` for each pair; `bool_results` reads the output.
#[must_use]
pub fn fgt_batch(pairs: &[(u64, u64)]) -> (l: Launch)
    ensures
        l.on_op2("test_fgt"@, pair_records(pairs@)),
{
    dispatch_op2("test_fgt", pair_inputs(pairs))
}

/// `a >= b` for each pair; `bool_results` reads the output.
#[must_use]
pub fn fge_batch(pairs: &[(u64, u64)]) -> (l: Launch)
    ensures
        l.on_op2("test_fge"@, pair_records(pairs@)),
{
    dispatch_op2("test_fge", pair_inputs(pairs))
}

/// Reads words in two's complement.
#[must_use]
pub fn i64_results(raw: &[u64]) -> (out: Vec<i64>)
    ensures
        out@.len() == raw@.len(),
        forall|i: int| 0 <= i < raw@.len() ==> #[trigger] out@[i] == from_wire(raw@[i]),
{
    let mut out: Vec<i64> = Vec::new();
    for i in 0..raw.len()
        invariant
            out@.len() == i,
            forall|j: int| 0 <= j < i ==> #[trigger] out@[j] == from_wire(raw@[j]),
    {
        let w: u64 = raw[i];
        if w < 0x8000_0000_0000_0000 {
            out.push(w as i64);
        } else {
            out.push((w as i128 - 0x1_0000_0000_0000_0000) as i64);
        }
    }
    out
}

/// Reads the lower halves of words.
#[must_use]
pub fn u32_results(raw: &[u64]) -> (out: Vec<u32>)
    ensures
        out@.len() == raw@.len(),
        forall|i: int|
            0 <= i < raw@.len() ==> #[trigger] out@[i] == raw@[i] as int % 0x1_0000_0000,
{
    let mut out: Vec<u32> = Vec::new();
    for i in 0..raw.len()
        invariant
            out@.len() == i,
            forall|j: int| 0 <= j < i ==> #[trigger] out@[j] == raw@[j] as int % 0x1_0000_0000,
    {
        out.push((raw[i] % 0x1_0000_0000) as u32);
    }
    out
}

/// Reads words as truth values.
#[must_use]
pub fn bool_results(raw: &[u64]) -> (out: Vec<bool>)
    ensures
        out@.len() == raw@.len(),
        forall|i: int| 0 <= i < raw@.len() ==> #[trigger] out@[i] == (raw@[i] != 0),
{
    let mut out: Vec<bool> = Vec::new();
    for i in 0..raw.len()
        invariant
            out@.len() == i,
            forall|j: int| 0 <= j < i ==> #[trigger] out@[j] == (raw@[j] != 0),
    {
        out.push(raw[i] != 0);
    }
    out
}

/// A chain of `fadd` in each thread.
#[must_use]
pub fn fadd_chain(threads: usize, seed: (u64, u64)) -> (l: Launch)
    ensures
        l.on_seed("__softfloat64_fadd_chain"@, threads, seed),
{
    dispatch_chain("__softfloat64_fadd_chain", threads, seed)
}

/// A chain of `fsub` in each thread.
#[must_use]
pub fn fsub_chain(threads: usize, seed: (u64, u64)) -> (l: Launch)
    ensures
        l.on_seed("__softfloat64_fsub_chain"@, threads, seed),
{
    dispatch_chain("__softfloat64_fsub_chain", threads, seed)
}

/// A chain of `fmul` in each thread.
#[must_use]
pub fn fmul_chain(threads: usize, seed: (u64, u64)) -> (l: Launch)
    ensures
        l.on_seed("__softfloat64_fmul_chain"@, threads, seed),
{
    dispatch_chain("__softfloat64_fmul_chain", threads, seed)
}

/// A chain of `fdiv` in each thread.
#[must_use]
pub fn fdiv_chain(threads: usize, seed: (u64, u64)) -> (l: Launch)
    ensures
        l.on_seed("__softfloat64_fdiv_chain"@, threads, seed),
{
    dispatch_chain("__softfloat64_fdiv_chain", threads, seed)
}

/// A chain of `fsqrt` in each thread.
#[must_use]
pub fn fsqrt_chain(threads: usize, seed: (u64, u64)) -> (l: Launch)
    ensures
        l.on_seed("__softfloat64_fsqrt_chain"@, threads, seed),
{
    dispatch_chain("__softfloat64_fsqrt_chain", threads, seed)
}

/// A chain of `fma` in each thread.
#[must_use]
pub fn fma_chain(threads: usize, seed: (u64, u64)) -> (l: Launch)
    ensures
        l.on_seed("__softfloat64_fma_chain"@, threads, seed),
{
    dispatch_chain("__softfloat64_fma_chain", threads, seed)
}

/// A chain of `cvt_i64_to_f64` in each thread.
#[must_use]
pub fn cvt_i64_to_f64_chain(threads: usize, seed: (u64, u64)) -> (l: Launch)
    ensures
        l.on_seed("__softfloat64_cvt_i64_to_f64_chain"@, threads, seed),
{
    dispatch_chain("__softfloat64_cvt_i64_to_f64_chain", threads, seed)
}

/// A chain of `cvt_u64_to_f64` in each thread.
#[must_use]
pub fn cvt_u64_to_f64_chain(threads: usize, seed: (u64, u64)) -> (l: Launch)
    ensures
        l.on_seed("__softfloat64_cvt_u64_to_f64_chain"@, threads, seed),
{
    dispatch_chain("__softfloat64_cvt_u64_to_f64_chain", threads, seed)
}

/// A chain of `cvt_f64_to_i64` in each thread.
#[must_use]
pub fn cvt_f64_to_i64_chain(threads: usize, seed: (u64, u64)) -> (l: Launch)
    ensures
        l.on_seed("__softfloat64_cvt_f64_to_i64_chain"@, threads, seed),
{
    dispatch_chain("__softfloat64_cvt_f64_to_i64_chain", threads, seed)
}

/// A chain of `cvt_f32_to_f64` in each thread.
#[must_use]
pub fn cvt_f32_to_f64_chain(threads: usize, seed: (u64, u64)) -> (l: Launch)
    ensures
        l.on_seed("__softfloat64_cvt_f32_to_f64_chain"@, threads, seed),
{
    dispatch_chain("__softfloat64_cvt_f32_to_f64_chain", threads, seed)
}

/// A chain of `cvt_f64_to_f32` in each thread.
#[must_use]
pub fn cvt_f64_to_f32_chain(threads: usize, seed: (u64, u64)) -> (l: Launch)
    ensures
        l.on_seed("__softfloat64_cvt_f64_to_f32_chain"@, threads, seed),
{
    dispatch_chain("__softfloat64_cvt_f64_to_f32_chain", threads, seed)
}

/// A chain of `feq` in each thread.
#[must_use]
pub fn feq_chain(threads: usize, seed: (u64, u64)) -> (l: Launch)
    ensures
        l.on_seed("__softfloat64_feq_chain"@, threads, seed),
{
    dispatch_chain("__softfloat64_feq_chain", threads, seed)
}

/// A chain of `flt` in each thread.
#[must_use]
pub fn flt_chain(threads: usize, seed: (u64, u64)) -> (l: Launch)
    ensures
        l.on_seed("__softfloat64_flt_chain"@, threads, seed),
{
    dispatch_chain("__softfloat64_flt_chain", threads, seed)
}

/// A chain of `fle` in each thread.
#[must_use]
pub fn fle_chain(threads: usize, seed: (u64, u64)) -> (l: Launch)
    ensures
        l.on_seed("__softfloat64_fle_chain"@, threads, seed),
{
    dispatch_chain("__softfloat64_fle_chain", threads, seed)
}

/// A chain of `fgt` in each thread.
#[must_use]
pub fn fgt_chain(threads: usize, seed: (u64, u64)) -> (l: Launch)
    ensures
        l.on_seed("__softfloat64_fgt_chain"@, threads, seed),
{
    dispatch_chain("__softfloat64_fgt_chain", threads, seed)
}

/// A chain of `fge` in each thread.
#[must_use]
pub fn fge_chain(threads: usize, seed: (u64, u64)) -> (l: Launch)
    ensures
        l.on_seed("__softfloat64_fge_chain"@, threads, seed),
{
    dispatch_chain("__softfloat64_fge_chain", threads, seed)
}

} // verus!
