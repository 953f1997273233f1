//! The redistributable Metal header: the public part of the shader source behind
//! a preamble.
use vstd::prelude::*;
use vstd::string::*;

verus! {

/// Marks where the test and benchmark kernels begin in the shader source.
pub const TEST_SCAFFOLDING_ANCHOR: &'static str = "// --- Test / benchmark kernels";

/// `pat` stands in `text` at position `i`.
pub open spec fn occurs_at(text: Seq<char>, pat: Seq<char>, i: int) -> bool {
    0 <= i && i + pat.len() <= text.len() && text.subrange(i, i + pat.len()) == pat
}

/// The first position from `i` on at which `pat` stands in `text`, or the end.
pub open spec fn first_occurrence(text: Seq<char>, pat: Seq<char>, i: int) -> int
    decreases text.len() - i,
{
    if i >= text.len() {
        text.len() as int
    } else if occurs_at(text, pat, i) {
        i
    } else {
        first_occurrence(text, pat, i + 1)
    }
}

/// The character has the Unicode property `White_Space`.
pub open spec fn is_white(c: char) -> bool {
    ||| 0x9 <= c as u32 <= 0xD
    ||| c as u32 == 0x20
    ||| c as u32 == 0x85
    ||| c as u32 == 0xA0
    ||| c as u32 == 0x1680
    ||| 0x2000 <= c as u32 <= 0x200A
    ||| 0x2028 <= c as u32 <= 0x2029
    ||| c as u32 == 0x202F
    ||| c as u32 == 0x205F
    ||| c as u32 == 0x3000
}

/// `text` without the white space at its end.
pub open spec fn trimmed(text: Seq<char>) -> Seq<char>
    decreases text.len(),
{
    if text.len() > 0 && is_white(text.last()) {
        trimmed(text.drop_last())
    } else {
        text
    }
}

/// The public part of the shader source.
pub open spec fn public_part(body: Seq<char>) -> Seq<char> {
    trimmed(body.take(first_occurrence(body, TEST_SCAFFOLDING_ANCHOR@, 0)))
}

/// The position is found, or is the end.
proof fn lemma_first_occurrence(text: Seq<char>, pat: Seq<char>, i: int)
    requires
        0 <= i <= text.len(),
    ensures
        i <= first_occurrence(text, pat, i) <= text.len(),
        forall|j: int|
            i <= j < first_occurrence(text, pat, i) ==> !#[trigger] occurs_at(text, pat, j),
    decreases text.len() - i,
{
    if i < text.len() && !occurs_at(text, pat, i) {
        lemma_first_occurrence(text, pat, i + 1);
    }
}

/// Trimming leaves a prefix.
proof fn lemma_trimmed(text: Seq<char>)
    ensures
        trimmed(text).len() <= text.len(),
        trimmed(text) == text.take(trimmed(text).len() as int),
    decreases text.len(),
{
    if text.len() > 0 && is_white(text.last()) {
        lemma_trimmed(text.drop_last());
        let n = trimmed(text).len() as int;
        assert(text.drop_last().take(n) =~= text.take(n));
    } else {
        assert(text.take(text.len() as int) =~= text);
    }
}

/// The public part is a prefix of the source in which the anchor does not stand.
pub proof fn public_part_has_no_anchor(body: Seq<char>, i: int)
    ensures
        public_part(body).len() <= body.len(),
        public_part(body) == body.take(public_part(body).len() as int),
        !occurs_at(public_part(body), TEST_SCAFFOLDING_ANCHOR@, i),
{
    let pat = TEST_SCAFFOLDING_ANCHOR@;
    let n = first_occurrence(body, pat, 0);
    let part = public_part(body);
    reveal_strlit("// --- Test / benchmark kernels");
    lemma_first_occurrence(body, pat, 0);
    lemma_trimmed(body.take(n));
    assert(body.take(n).take(part.len() as int) =~= body.take(part.len() as int));
    if occurs_at(part, pat, i) {
        assert(part.subrange(i, i + pat.len()) =~= body.subrange(i, i + pat.len()));
        assert(occurs_at(body, pat, i));
    }
}

/// The white-space characters are the tabs and line ends, the blanks of every width
/// and the separators of lines and paragraphs, and nothing else.
pub proof fn white_space(c: char)
    ensures
        is_white(c) == (c as u32 == 0x9 || c as u32 == 0xA || c as u32 == 0xB || c as u32 == 0xC
            || c as u32 == 0xD || c as u32 == 0x20 || c as u32 == 0x85 || c as u32 == 0xA0
            || c as u32 == 0x1680 || (c as u32 >= 0x2000 && c as u32 <= 0x200A) || c as u32
            == 0x2028 || c as u32 == 0x2029 || c as u32 == 0x202F || c as u32 == 0x205F
            || c as u32 == 0x3000),
{
}

/// Trimming loses white space only, and all of it.
proof fn lemma_trimmed_white(text: Seq<char>)
    ensures
        forall|j: int| trimmed(text).len() <= j < text.len() ==> is_white(#[trigger] text[j]),
        trimmed(text).len() > 0 ==> !is_white(text[trimmed(text).len() - 1]),
    decreases text.len(),
{
    lemma_trimmed(text);
    if text.len() > 0 && is_white(text.last()) {
        let short = text.drop_last();
        lemma_trimmed(short);
        lemma_trimmed_white(short);
        assert forall|j: int| trimmed(text).len() <= j < text.len() implies is_white(
            #[trigger] text[j],
        ) by {
            if j < short.len() {
                assert(short[j] == text[j]);
            }
        }
        if trimmed(text).len() > 0 {
            assert(short[trimmed(text).len() - 1] == text[trimmed(text).len() - 1]);
        }
    }
}

/// The first position of the pattern is one at which it stands, or the end.
proof fn lemma_found(text: Seq<char>, pat: Seq<char>, i: int)
    requires
        0 <= i <= text.len(),
    ensures
        first_occurrence(text, pat, i) < text.len() ==> occurs_at(
            text,
            pat,
            first_occurrence(text, pat, i),
        ),
    decreases text.len() - i,
{
    if i < text.len() && !occurs_at(text, pat, i) {
        lemma_found(text, pat, i + 1);
    }
}

/// Nothing but white space is lost before the anchor. The source up to `n`, where
/// the anchor stands or the source ends, is the public part and white space after
/// it; the public part does not end in white space; and the anchor does not stand
/// before `n`.
pub proof fn public_part_reaches_the_anchor(body: Seq<char>) -> (n: int)
    ensures
        0 <= n <= body.len(),
        n == body.len() || (n + 31 <= body.len() && body.subrange(n, n + 31)
            == "// --- Test / benchmark kernels"@),
        forall|i: int|
            0 <= i < n && i + 31 <= body.len() ==> #[trigger] body.subrange(i, i + 31)
                != "// --- Test / benchmark kernels"@,
        public_part(body).len() <= n,
        forall|j: int|
            0 <= j < public_part(body).len() ==> #[trigger] public_part(body)[j] == body[j],
        forall|j: int| public_part(body).len() <= j < n ==> is_white(#[trigger] body[j]),
        public_part(body).len() > 0 ==> !is_white(public_part(body).last()),
{
    let pat = "// --- Test / benchmark kernels"@;
    let n = first_occurrence(body, pat, 0);
    let head = body.take(n);
    let part = public_part(body);
    reveal_strlit("// --- Test / benchmark kernels");
    assert(pat.len() == 31);
    lemma_first_occurrence(body, pat, 0);
    lemma_found(body, pat, 0);
    lemma_trimmed(head);
    lemma_trimmed_white(head);
    assert forall|i: int| 0 <= i < n && i + 31 <= body.len() implies #[trigger] body.subrange(
        i,
        i + 31,
    ) != pat by {
        assert(!occurs_at(body, pat, i));
    }
    assert forall|j: int| 0 <= j < part.len() implies #[trigger] part[j] == body[j] by {
        assert(head.take(part.len() as int)[j] == head[j]);
    }
    assert forall|j: int| part.len() <= j < n implies is_white(#[trigger] body[j]) by {
        assert(head[j] == body[j]);
    }
    n
}

/// What stands behind the first anchor does not change the public part.
pub proof fn scaffolding_is_ignored(before: Seq<char>, after: Seq<char>, other: Seq<char>)
    ensures
        public_part(before + "// --- Test / benchmark kernels"@ + after) == public_part(
            before + "// --- Test / benchmark kernels"@ + other,
        ),
{
    let pat = "// --- Test / benchmark kernels"@;
    let x = before + pat + after;
    let y = before + pat + other;
    reveal_strlit("// --- Test / benchmark kernels");
    assert(pat.len() == 31);
    let m = first_occurrence(x, pat, 0);
    let n = first_occurrence(y, pat, 0);
    assert(x.subrange(before.len() as int, before.len() as int + 31) =~= pat);
    assert(y.subrange(before.len() as int, before.len() as int + 31) =~= pat);
    lemma_first_occurrence(x, pat, 0);
    lemma_first_occurrence(y, pat, 0);
    lemma_found(x, pat, 0);
    lemma_found(y, pat, 0);
    assert(occurs_at(x, pat, before.len() as int));
    assert(occurs_at(y, pat, before.len() as int));
    assert(m <= before.len() && n <= before.len());
    assert(x.subrange(m, m + 31) =~= y.subrange(m, m + 31));
    assert(x.subrange(n, n + 31) =~= y.subrange(n, n + 31));
    assert(occurs_at(y, pat, m) && occurs_at(x, pat, n));
    assert(m == n);
    assert(x.take(m) =~= y.take(n));
}

/// The characters of the anchor.
fn anchor() -> (v: Vec<char>)
    ensures
        v@ == TEST_SCAFFOLDING_ANCHOR@,
{
    let mut v: Vec<char> = Vec::new();
    let n: usize = TEST_SCAFFOLDING_ANCHOR.unicode_len();
    for i in 0..n
        invariant
            n == TEST_SCAFFOLDING_ANCHOR@.len(),
            v@ =~= TEST_SCAFFOLDING_ANCHOR@.take(i as int),
    {
        v.push(TEST_SCAFFOLDING_ANCHOR.get_char(i));
    }
    assert(TEST_SCAFFOLDING_ANCHOR@.take(n as int) =~= TEST_SCAFFOLDING_ANCHOR@);
    v
}

/// Tests whether `pat` stands in `text` at position `i`.
fn stands_at(text: &[char], pat: &[char], i: usize) -> (r: bool)
    requires
        i <= text@.len(),
    ensures
        r == occurs_at(text@, pat@, i as int),
{
    let end: usize = text.len();
    if pat.len() > end - i {
        return false;
    }
    for j in 0..pat.len()
        invariant
            end == text@.len(),
            i + pat@.len() <= end,
            forall|k: int| 0 <= k < j ==> text@[i + k] == #[trigger] pat@[k],
    {
        if text[i + j] != pat[j] {
            proof {
                assert(text@.subrange(i as int, i + pat@.len())[j as int] == text@[i + j]);
            }
            return false;
        }
    }
    assert(text@.subrange(i as int, i + pat@.len()) =~= pat@);
    true
}

/// Tests for white space.
fn whitespace(c: char) -> (r: bool)
    ensures
        r == is_white(c),
{
    let n: u32 = c as u32;
    (0x9 <= n && n <= 0xD) || n == 0x20 || n == 0x85 || n == 0xA0 || n == 0x1680 || (0x2000 <= n && n
        <= 0x200A) || n == 0x2028 || n == 0x2029 || n == 0x202F || n == 0x205F || n == 0x3000
}

/// The length of the public part of the shader source.
pub fn public_length(body: &[char]) -> (n: usize)
    ensures
        n <= body@.len(),
        body@.take(n as int) == public_part(body@),
{
    let pat = anchor();
    let mut n: usize = 0;
    while n < body.len() && !stands_at(body, pat.as_slice(), n)
        invariant
            n <= body@.len(),
            pat@ == TEST_SCAFFOLDING_ANCHOR@,
            first_occurrence(body@, pat@, 0) == first_occurrence(body@, pat@, n as int),
        decreases body@.len() - n,
    {
        n = n + 1;
    }
    while n > 0 && whitespace(body[n - 1])
        invariant
            n <= body@.len(),
            trimmed(body@.take(n as int)) == public_part(body@),
        decreases n,
    {
        proof {
            assert(body@.take(n as int).last() == body@[n - 1]);
            assert(body@.take(n as int).drop_last() =~= body@.take(n - 1));
        }
        n = n - 1;
    }
    proof {
        if n > 0 {
            assert(body@.take(n as int).last() == body@[n - 1]);
        }
    }
    n
}

/// The header to distribute: the preamble, the public part of the shader source
/// and a line end.
#[must_use]
pub fn redistributable(preamble: &[char], body: &[char]) -> (out: Vec<char>)
    ensures
        out@ == preamble@ + public_part(body@) + seq!['\n'],
{
    let n: usize = public_length(body);
    let mut out: Vec<char> = Vec::new();
    for i in 0..preamble.len()
        invariant
            out@ =~= preamble@.take(i as int),
    {
        out.push(preamble[i]);
    }
    assert(preamble@.take(preamble@.len() as int) =~= preamble@);
    for i in 0..n
        invariant
            n <= body@.len(),
            out@ =~= preamble@ + body@.take(i as int),
    {
        out.push(body[i]);
    }
    out.push('\n');
    out
}

/// Tests whether the distributed file holds what it should.
#[must_use]
pub fn is_current(existing: &[char], wanted: &[char]) -> (r: bool)
    ensures
        r == (existing@ == wanted@),
{
    if existing.len() != wanted.len() {
        return false;
    }
    for i in 0..existing.len()
        invariant
            existing@.len() == wanted@.len(),
            forall|k: int| 0 <= k < i ==> existing@[k] == wanted@[k],
    {
        if existing[i] != wanted[i] {
            return false;
        }
    }
    assert(existing@ =~= wanted@);
    true
}

} // verus!
