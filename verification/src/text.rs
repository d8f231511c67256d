//! Byte strings: searching, cutting, joining and trimming them, decimal
//! numerals and letter case.

use vstd::prelude::*;
use vstd::slice::{slice_subrange, slice_to_vec};
use vstd::string::*;

verus! {

/// Horizontal tab, the first of the five control bytes that count as
/// whitespace.
pub const TAB: u8 = 9;

/// Line feed.
pub const LF: u8 = 10;

/// Carriage return, the last of the five control bytes that count as
/// whitespace.
pub const CR: u8 = 13;

/// Space.
pub const SPACE: u8 = 32;

/// The digit `0`.
pub const ZERO: u8 = 48;

/// The digit `9`.
pub const NINE: u8 = 57;

/// The letter `A`.
pub const UPPER_A: u8 = 65;

/// The letter `Z`.
pub const UPPER_Z: u8 = 90;

/// How far a lower-case letter lies above its upper-case form.
pub const CASE_GAP: u8 = 32;

/// The bytes that write `text` in UTF-8.
pub open spec fn wire(text: Seq<char>) -> Seq<u8> {
    vstd::utf8::encode_utf8(text)
}

/// The end of a line: carriage return, line feed.
pub open spec fn crlf() -> Seq<u8> {
    wire("\r\n"@)
}

/// The empty line that ends a header block: two line ends in a row.
pub open spec fn blank_line() -> Seq<u8> {
    wire("\r\n\r\n"@)
}

/// The bytes of the line end and of the blank line.
pub proof fn lemma_line_end_bytes()
    ensures
        crlf() == seq![CR, LF],
        blank_line() == seq![CR, LF, CR, LF],
        blank_line() == crlf() + crlf(),
{
    reveal_strlit("\r\n");
    reveal_strlit("\r\n\r\n");
    vstd::utf8::is_ascii_chars_encode_utf8("\r\n"@);
    vstd::utf8::is_ascii_chars_encode_utf8("\r\n\r\n"@);
    assert(crlf() =~= seq![CR, LF]);
    assert(blank_line() =~= seq![CR, LF, CR, LF]);
    assert(blank_line() =~= crlf() + crlf());
}

/// The byte strings that a vector of byte vectors holds, in order.
pub open spec fn views(v: Seq<Vec<u8>>) -> Seq<Seq<u8>> {
    v.map_values(|x: Vec<u8>| x@)
}

/// Appends the bytes of `s` to `v`.
pub fn append(v: &mut Vec<u8>, s: &[u8])
    ensures
        final(v)@ == old(v)@ + s@,
{
    let mut i: usize = 0;
    assert(s@.take(0) =~= Seq::<u8>::empty());
    assert(v@ =~= old(v)@ + s@.take(0));
    while i < s.len()
        invariant
            i <= s@.len(),
            v@ == old(v)@ + s@.take(i as int),
        decreases s@.len() - i,
    {
        v.push(s[i]);
        assert(s@.take(i + 1) =~= s@.take(i as int).push(s@[i as int]));
        assert(v@ =~= old(v)@ + s@.take(i + 1));
        i += 1;
    }
    assert(s@.take(s@.len() as int) =~= s@);
}

/// Whether `a` and `b` hold the same bytes.
pub fn same_bytes(a: &[u8], b: &[u8]) -> (r: bool)
    ensures
        r == (a@ == b@),
{
    if a.len() != b.len() {
        return false;
    }
    let r = matches_at(a, b, 0);
    assert(a@.subrange(0, a@.len() as int) =~= a@);
    r
}

/// Whether `s` begins with `prefix`.
pub fn starts_with(s: &[u8], prefix: &[u8]) -> (r: bool)
    ensures
        r == prefix@.is_prefix_of(s@),
{
    matches_at(s, prefix, 0)
}

/// `pat` stands in `s` at index `i`.
pub open spec fn occurs_at(s: Seq<u8>, pat: Seq<u8>, i: int) -> bool {
    0 <= i && i + pat.len() <= s.len() && s.subrange(i, i + pat.len()) == pat
}

/// `pat` stands in `s` at index `i` and at no smaller index.
pub open spec fn is_first_occurrence(s: Seq<u8>, pat: Seq<u8>, i: int) -> bool {
    occurs_at(s, pat, i) && forall|j: int| 0 <= j < i ==> !occurs_at(s, pat, j)
}

/// The smallest index at which `pat` stands in `s`, if there is one.
pub open spec fn first_occurrence(s: Seq<u8>, pat: Seq<u8>) -> Option<int> {
    if exists|i: int| occurs_at(s, pat, i) {
        Some(choose|i: int| is_first_occurrence(s, pat, i))
    } else {
        None
    }
}

/// An index with the defining property is the one `first_occurrence` names.
pub proof fn lemma_first_occurrence_is(s: Seq<u8>, pat: Seq<u8>, i: int)
    requires
        is_first_occurrence(s, pat, i),
    ensures
        first_occurrence(s, pat) == Some(i),
{
    let k = choose|k: int| is_first_occurrence(s, pat, k);
    assert(is_first_occurrence(s, pat, k));
    assert(occurs_at(s, pat, i));
    if k < i {
        assert(!occurs_at(s, pat, k));
    }
    if i < k {
        assert(!occurs_at(s, pat, i));
    }
}

/// Whatever `first_occurrence` names has the defining property.
pub proof fn lemma_first_occurrence_some(s: Seq<u8>, pat: Seq<u8>)
    requires
        first_occurrence(s, pat) is Some,
    ensures
        is_first_occurrence(s, pat, first_occurrence(s, pat).unwrap()),
{
    let w = choose|i: int| occurs_at(s, pat, i);
    lemma_least_occurrence(s, pat, w);
}

proof fn lemma_least_occurrence(s: Seq<u8>, pat: Seq<u8>, w: int)
    requires
        occurs_at(s, pat, w),
    ensures
        exists|i: int| is_first_occurrence(s, pat, i),
    decreases w,
{
    if exists|j: int| 0 <= j < w && occurs_at(s, pat, j) {
        let j = choose|j: int| 0 <= j < w && occurs_at(s, pat, j);
        lemma_least_occurrence(s, pat, j);
    } else {
        assert(is_first_occurrence(s, pat, w));
    }
}

/// Bytes added at the end do not move the first place where `pat` stands.
pub proof fn lemma_first_occurrence_stays(s: Seq<u8>, more: Seq<u8>, pat: Seq<u8>)
    requires
        first_occurrence(s, pat) is Some,
    ensures
        first_occurrence(s + more, pat) == first_occurrence(s, pat),
{
    lemma_first_occurrence_some(s, pat);
    let i = first_occurrence(s, pat).unwrap();
    let t = s + more;
    assert(t.subrange(i, i + pat.len()) =~= s.subrange(i, i + pat.len()));
    assert forall|j: int| 0 <= j < i implies !occurs_at(t, pat, j) by {
        if occurs_at(t, pat, j) {
            assert(s.subrange(j, j + pat.len()) =~= t.subrange(j, j + pat.len()));
            assert(occurs_at(s, pat, j));
        }
    }
    lemma_first_occurrence_is(t, pat, i);
}

/// Whether `pat` stands in `s` at index `i`.
pub fn matches_at(s: &[u8], pat: &[u8], i: usize) -> (r: bool)
    ensures
        r == occurs_at(s@, pat@, i as int),
{
    if pat.len() > s.len() || i > s.len() - pat.len() {
        return false;
    }
    let mut k: usize = 0;
    while k < pat.len()
        invariant
            k <= pat.len(),
            i + pat.len() <= s.len(),
            forall|j: int| 0 <= j < k ==> s@[i + j] == pat@[j],
        decreases pat.len() - k,
    {
        if s[i + k] != pat[k] {
            assert(s@.subrange(i as int, i + pat.len())[k as int] != pat@[k as int]);
            return false;
        }
        k += 1;
    }
    assert(s@.subrange(i as int, i + pat.len()) =~= pat@);
    true
}

/// The index of the first place where `pat` stands in `s`.
pub fn find(s: &[u8], pat: &[u8]) -> (r: Option<usize>)
    ensures
        match r {
            Some(i) => first_occurrence(s@, pat@) == Some(i as int),
            None => first_occurrence(s@, pat@) is None,
        },
{
    if pat.len() > s.len() {
        return None;
    }
    let last: usize = s.len() - pat.len();
    let mut i: usize = 0;
    loop
        invariant
            last == s.len() - pat.len(),
            i <= last,
            forall|j: int| 0 <= j < i ==> !occurs_at(s@, pat@, j),
        decreases last - i,
    {
        if matches_at(s, pat, i) {
            proof {
                lemma_first_occurrence_is(s@, pat@, i as int);
            }
            return Some(i);
        }
        if i == last {
            return None;
        }
        i += 1;
    }
}

/// A class of bytes that separate or pad.
#[derive(Clone, Copy, Debug)]
pub enum ByteClass {
    /// Space, tab, line feed, vertical tab, form feed and carriage return.
    Whitespace,
    /// The one byte given.
    Byte(u8),
}

impl ByteClass {
    /// `b` belongs to the class.
    pub open spec fn holds(self, b: u8) -> bool {
        match self {
            ByteClass::Whitespace => b == SPACE || TAB <= b <= CR,
            ByteClass::Byte(c) => b == c,
        }
    }

    /// Whether `b` belongs to the class.
    pub fn contains(&self, b: u8) -> (r: bool)
        ensures
            r == self.holds(b),
    {
        match self {
            ByteClass::Whitespace => b == SPACE || (TAB <= b && b <= CR),
            ByteClass::Byte(c) => b == *c,
        }
    }
}

/// No byte of `s` belongs to `class`.
pub open spec fn free_of(s: Seq<u8>, class: ByteClass) -> bool {
    forall|k: int| 0 <= k < s.len() ==> !class.holds(s[k])
}

/// A string that does not hold the first byte of `pat` does not hold `pat`,
/// and with `pat` after it, `pat` stands first where the string ends.
pub proof fn lemma_first_occurrence_after_free(s: Seq<u8>, pat: Seq<u8>, tail: Seq<u8>)
    requires
        pat.len() >= 1,
        free_of(s, ByteClass::Byte(pat[0])),
    ensures
        first_occurrence(s, pat) is None,
        first_occurrence(s + pat + tail, pat) == Some(s.len() as int),
{
    assert forall|j: int| !occurs_at(s, pat, j) by {
        if occurs_at(s, pat, j) {
            assert(s.subrange(j, j + pat.len())[0] == s[j]);
        }
    }
    let text = s + pat + tail;
    let at = s.len() as int;
    assert(text.subrange(at, at + pat.len()) =~= pat);
    assert forall|j: int| 0 <= j < at implies !occurs_at(text, pat, j) by {
        if occurs_at(text, pat, j) {
            assert(text.subrange(j, j + pat.len())[0] == text[j]);
            assert(text[j] == s[j]);
        }
    }
    lemma_first_occurrence_is(text, pat, at);
}

/// `s` cut at every place where `pat` stands, scanning from the left; the
/// places themselves are left out. An empty `pat` cuts nowhere.
pub open spec fn pieces(s: Seq<u8>, pat: Seq<u8>) -> Seq<Seq<u8>>
    decreases s.len(),
{
    let at = first_occurrence(s, pat);
    if pat.len() > 0 && at is Some && 0 <= at.unwrap() && at.unwrap() + pat.len() <= s.len() {
        seq![s.take(at.unwrap())] + pieces(s.skip(at.unwrap() + pat.len()), pat)
    } else {
        seq![s]
    }
}

/// Cutting yields at least one piece.
pub proof fn lemma_pieces_nonempty(s: Seq<u8>, pat: Seq<u8>)
    ensures
        pieces(s, pat).len() >= 1,
{
}

/// Cuts `s` at every place where `pat` stands.
pub fn split(s: &[u8], pat: &[u8]) -> (r: Vec<Vec<u8>>)
    ensures
        views(r@) == pieces(s@, pat@),
{
    let mut out: Vec<Vec<u8>> = Vec::new();
    if pat.len() == 0 {
        out.push(slice_to_vec(s));
        assert(views(out@) =~= seq![s@]);
        return out;
    }
    let mut start: usize = 0;
    assert(s@.skip(0) =~= s@);
    assert(views(out@) + pieces(s@, pat@) =~= pieces(s@, pat@));
    loop
        invariant
            pat@.len() > 0,
            start <= s@.len(),
            pieces(s@, pat@) == views(out@) + pieces(s@.skip(start as int), pat@),
        decreases s@.len() - start,
    {
        let rest = slice_subrange(s, start, s.len());
        let ghost before = views(out@);
        match find(rest, pat) {
            Some(i) => {
                proof {
                    lemma_first_occurrence_some(rest@, pat@);
                    assert(rest@.skip(i + pat@.len()) =~= s@.skip(start + i + pat@.len()));
                }
                out.push(slice_to_vec(slice_subrange(rest, 0, i)));
                assert(views(out@) =~= before + seq![rest@.take(i as int)]);
                start = start + i + pat.len();
            },
            None => {
                out.push(slice_to_vec(rest));
                assert(views(out@) =~= before + seq![rest@]);
                return out;
            },
        }
    }
}

/// `parts` written one after another with `sep` between each two.
pub open spec fn joined(parts: Seq<Seq<u8>>, sep: Seq<u8>) -> Seq<u8>
    decreases parts.len(),
{
    if parts.len() == 0 {
        Seq::empty()
    } else if parts.len() == 1 {
        parts[0]
    } else {
        joined(parts.drop_last(), sep) + sep + parts.last()
    }
}

/// Writes `parts` one after another with `sep` between each two.
pub fn join(parts: &[Vec<u8>], sep: &[u8]) -> (r: Vec<u8>)
    ensures
        r@ == joined(views(parts@), sep@),
{
    let mut out: Vec<u8> = Vec::new();
    let ghost all = views(parts@);
    let mut i: usize = 0;
    assert(all.take(0) =~= Seq::<Seq<u8>>::empty());
    while i < parts.len()
        invariant
            i <= parts@.len(),
            all == views(parts@),
            out@ == joined(all.take(i as int), sep@),
        decreases parts@.len() - i,
    {
        assert(all.take(i + 1).drop_last() =~= all.take(i as int));
        assert(all.take(i + 1).last() == parts@[i as int]@);
        if i > 0 {
            append(&mut out, sep);
        }
        append(&mut out, parts[i].as_slice());
        assert(out@ =~= joined(all.take(i + 1), sep@));
        i += 1;
    }
    assert(all.take(parts@.len() as int) =~= all);
    out
}

/// With two parts or more, the joined text is the first part, the
/// separator, and the rest joined.
pub proof fn lemma_joined_front(parts: Seq<Seq<u8>>, sep: Seq<u8>)
    requires
        parts.len() >= 2,
    ensures
        joined(parts, sep) == parts[0] + sep + joined(parts.drop_first(), sep),
    decreases parts.len(),
{
    let init = parts.drop_last();
    let tail = parts.drop_first();
    assert(joined(parts, sep) == joined(init, sep) + sep + parts.last());
    if parts.len() == 2 {
        assert(joined(init, sep) == parts[0]);
        assert(joined(tail, sep) == parts[1]);
    } else {
        lemma_joined_front(init, sep);
        assert(init.drop_first() =~= tail.drop_last());
        assert(joined(tail, sep) == joined(tail.drop_last(), sep) + sep + tail.last());
        assert(joined(parts, sep) =~= parts[0] + sep + joined(tail, sep));
    }
}

/// Cutting undoes joining: parts that do not hold the first byte of the
/// separator come back from the joined text as they went in.
pub proof fn lemma_pieces_of_joined(parts: Seq<Seq<u8>>, sep: Seq<u8>)
    requires
        parts.len() >= 1,
        sep.len() >= 1,
        forall|i: int|
            0 <= i < parts.len() ==> free_of(#[trigger] parts[i], ByteClass::Byte(sep[0])),
    ensures
        pieces(joined(parts, sep), sep) == parts,
    decreases parts.len(),
{
    let first = parts[0];
    assert(free_of(first, ByteClass::Byte(sep[0])));
    if parts.len() == 1 {
        lemma_first_occurrence_after_free(first, sep, Seq::empty());
        assert(joined(parts, sep) == first);
        assert(pieces(first, sep) == seq![first]);
        assert(seq![first] =~= parts);
    } else {
        let rest = parts.drop_first();
        let text = joined(parts, sep);
        let at = first.len() as int;
        lemma_joined_front(parts, sep);
        lemma_first_occurrence_after_free(first, sep, joined(rest, sep));
        assert(text.take(at) =~= first);
        assert(text.skip(at + sep.len()) =~= joined(rest, sep));
        assert forall|i: int| 0 <= i < rest.len() implies free_of(
            #[trigger] rest[i],
            ByteClass::Byte(sep[0]),
        ) by {
            assert(rest[i] == parts[i + 1]);
        }
        lemma_pieces_of_joined(rest, sep);
        assert(pieces(text, sep) == seq![first] + pieces(joined(rest, sep), sep));
        assert(seq![first] + rest =~= parts);
    }
}

/// In lines joined by line ends, where no line is empty or holds a carriage
/// return, the byte two places after a carriage return is never another.
proof fn lemma_no_blank_line_within(lines: Seq<Seq<u8>>)
    requires
        lines.len() >= 1,
        forall|i: int|
            0 <= i < lines.len() ==> (#[trigger] lines[i]).len() > 0 && free_of(
                lines[i],
                ByteClass::Byte(CR),
            ),
    ensures
        forall|j: int|
            0 <= j < joined(lines, crlf()).len() && #[trigger] joined(lines, crlf())[j] == CR ==> j
                + 2 < joined(lines, crlf()).len() && joined(lines, crlf())[j + 2] != CR,
    decreases lines.len(),
{
    lemma_line_end_bytes();
    let block = joined(lines, crlf());
    let last = lines.last();
    assert(last.len() > 0 && free_of(last, ByteClass::Byte(CR)));
    if lines.len() > 1 {
        let init = lines.drop_last();
        assert forall|i: int| 0 <= i < init.len() implies (#[trigger] init[i]).len() > 0 && free_of(
            init[i],
            ByteClass::Byte(CR),
        ) by {
            assert(init[i] == lines[i]);
        }
        lemma_no_blank_line_within(init);
        let before = joined(init, crlf());
        assert(block == before + crlf() + last);
        assert forall|j: int| 0 <= j < block.len() && #[trigger] block[j] == CR implies j + 2
            < block.len() && block[j + 2] != CR by {
            if j < before.len() {
                assert(block[j] == before[j]);
                assert(block[j + 2] == before[j + 2]);
            } else if j == before.len() {
                assert(block[j + 2] == last[0]);
            } else if j == before.len() + 1 {
                assert(block[j] == LF);
            } else {
                assert(block[j] == last[j - before.len() - 2]);
            }
        }
    }
}

/// After lines joined by line ends, none of them empty or holding a carriage
/// return, the first blank line is the one that follows the last line.
pub proof fn lemma_blank_line_after_lines(lines: Seq<Seq<u8>>, tail: Seq<u8>)
    requires
        lines.len() >= 1,
        forall|i: int|
            0 <= i < lines.len() ==> (#[trigger] lines[i]).len() > 0 && free_of(
                lines[i],
                ByteClass::Byte(CR),
            ),
    ensures
        first_occurrence(joined(lines, crlf()) + blank_line() + tail, blank_line()) == Some(
            joined(lines, crlf()).len() as int,
        ),
{
    lemma_line_end_bytes();
    lemma_no_blank_line_within(lines);
    let block = joined(lines, crlf());
    let text = block + blank_line() + tail;
    let at = block.len() as int;
    assert(text.subrange(at, at + 4) =~= blank_line());
    assert forall|j: int| 0 <= j < at implies !occurs_at(text, blank_line(), j) by {
        if occurs_at(text, blank_line(), j) {
            let w = text.subrange(j, j + 4);
            assert(w[0] == CR && w[2] == CR);
            assert(text[j] == block[j]);
            assert(block[j] == CR);
            assert(text[j + 2] == block[j + 2]);
        }
    }
    lemma_first_occurrence_is(text, blank_line(), at);
}

/// `s` cut at every byte of `class`: the stretches between such bytes, empty
/// ones included, so that there is one more stretch than there are such bytes.
pub open spec fn runs(s: Seq<u8>, class: ByteClass) -> Seq<Seq<u8>>
    decreases s.len(),
{
    if s.len() == 0 {
        seq![Seq::<u8>::empty()]
    } else {
        let before = runs(s.drop_last(), class);
        if class.holds(s.last()) {
            before.push(Seq::<u8>::empty())
        } else {
            before.drop_last().push(before.last().push(s.last()))
        }
    }
}

/// The predicate "is not empty" on byte strings.
pub open spec fn nonempty() -> spec_fn(Seq<u8>) -> bool {
    |p: Seq<u8>| p.len() > 0
}

/// The non-empty stretches of `s` between bytes of `class`.
pub open spec fn fields(s: Seq<u8>, class: ByteClass) -> Seq<Seq<u8>> {
    runs(s, class).filter(nonempty())
}

/// There is always at least one stretch.
pub proof fn lemma_runs_nonempty(s: Seq<u8>, class: ByteClass)
    ensures
        runs(s, class).len() >= 1,
    decreases s.len(),
{
    if s.len() > 0 {
        lemma_runs_nonempty(s.drop_last(), class);
    }
}

/// No stretch holds a byte of the class that it was cut at.
pub proof fn lemma_runs_are_free(s: Seq<u8>, class: ByteClass)
    ensures
        forall|i: int|
            0 <= i < runs(s, class).len() ==> free_of(#[trigger] runs(s, class)[i], class),
    decreases s.len(),
{
    if s.len() > 0 {
        lemma_runs_are_free(s.drop_last(), class);
        lemma_runs_nonempty(s.drop_last(), class);
        let before = runs(s.drop_last(), class);
        assert forall|i: int| 0 <= i < runs(s, class).len() implies free_of(
            #[trigger] runs(s, class)[i],
            class,
        ) by {
            if i < before.len() - 1 {
                assert(runs(s, class)[i] == before[i]);
            } else if !class.holds(s.last()) {
                assert(free_of(before.last(), class));
            }
        }
    }
}

/// Every field is non-empty and holds no byte of the class that `s` was cut
/// at.
pub proof fn lemma_fields_are_tokens(s: Seq<u8>, class: ByteClass)
    ensures
        forall|i: int|
            0 <= i < fields(s, class).len() ==> (#[trigger] fields(s, class)[i]).len() > 0
                && free_of(fields(s, class)[i], class),
{
    lemma_runs_are_free(s, class);
    let all = runs(s, class);
    assert forall|i: int| 0 <= i < fields(s, class).len() implies (#[trigger] fields(
        s,
        class,
    )[i]).len() > 0 && free_of(fields(s, class)[i], class) by {
        all.lemma_filter_pred(nonempty(), i);
        all.lemma_filter_contains_rev(nonempty(), fields(s, class)[i]);
        let j = choose|j: int| 0 <= j < all.len() && all[j] == fields(s, class)[i];
        assert(free_of(all[j], class));
    }
}

/// A string without a byte of the class is one stretch.
pub proof fn lemma_runs_of_free(t: Seq<u8>, class: ByteClass)
    requires
        free_of(t, class),
    ensures
        runs(t, class) == seq![t],
    decreases t.len(),
{
    if t.len() > 0 {
        let init = t.drop_last();
        assert forall|k: int| 0 <= k < init.len() implies !class.holds(init[k]) by {
            assert(init[k] == t[k]);
        }
        lemma_runs_of_free(init, class);
        assert(init.push(t.last()) =~= t);
        assert(seq![init].drop_last() =~= Seq::<Seq<u8>>::empty());
        assert(Seq::<Seq<u8>>::empty().push(t) =~= seq![t]);
    } else {
        assert(t =~= Seq::<u8>::empty());
    }
}

/// After a byte of the class, a string without such bytes is one more
/// stretch.
pub proof fn lemma_runs_after_separator(s: Seq<u8>, b: u8, t: Seq<u8>, class: ByteClass)
    requires
        class.holds(b),
        free_of(t, class),
    ensures
        runs(s.push(b) + t, class) == runs(s, class).push(t),
    decreases t.len(),
{
    let whole = s.push(b) + t;
    if t.len() == 0 {
        assert(whole =~= s.push(b));
        assert(whole.drop_last() =~= s);
        assert(t =~= Seq::<u8>::empty());
    } else {
        lemma_runs_after_separator(s, b, t.drop_last(), class);
        assert(whole.drop_last() =~= s.push(b) + t.drop_last());
        assert(whole.last() == t.last());
        let before = runs(s, class).push(t.drop_last());
        assert(before.drop_last() =~= runs(s, class));
        assert(t.drop_last().push(t.last()) =~= t);
    }
}

/// The non-empty stretches of `s` between bytes of `class`, in order.
pub fn split_fields(s: &[u8], class: ByteClass) -> (r: Vec<Vec<u8>>)
    ensures
        views(r@) == fields(s@, class),
{
    let mut out: Vec<Vec<u8>> = Vec::new();
    let mut cur: Vec<u8> = Vec::new();
    let mut i: usize = 0;
    proof {
        assert(s@.take(0) =~= Seq::<u8>::empty());
        assert(runs(s@.take(0), class).drop_last() =~= Seq::<Seq<u8>>::empty());
        reveal(Seq::filter);
        assert(views(out@) =~= runs(s@.take(0), class).drop_last().filter(nonempty()));
    }
    while i < s.len()
        invariant
            i <= s@.len(),
            views(out@) == runs(s@.take(i as int), class).drop_last().filter(nonempty()),
            cur@ == runs(s@.take(i as int), class).last(),
        decreases s@.len() - i,
    {
        let b = s[i];
        let ghost prev = runs(s@.take(i as int), class);
        let ghost before = views(out@);
        proof {
            lemma_runs_nonempty(s@.take(i as int), class);
            assert(s@.take(i + 1).drop_last() =~= s@.take(i as int));
            assert(prev =~= prev.drop_last().push(prev.last()));
            prev.drop_last().lemma_filter_push(prev.last(), nonempty());
        }
        if class.contains(b) {
            if cur.len() > 0 {
                out.push(cur);
                assert(views(out@) =~= before.push(prev.last()));
            }
            cur = Vec::new();
            assert(prev.push(Seq::<u8>::empty()).drop_last() =~= prev);
        } else {
            cur.push(b);
            assert(prev.drop_last().push(prev.last().push(b)).drop_last() =~= prev.drop_last());
        }
        i += 1;
    }
    let ghost all = runs(s@, class);
    let ghost before = views(out@);
    proof {
        assert(s@.take(s@.len() as int) =~= s@);
        lemma_runs_nonempty(s@, class);
        assert(all =~= all.drop_last().push(all.last()));
        all.drop_last().lemma_filter_push(all.last(), nonempty());
    }
    if cur.len() > 0 {
        out.push(cur);
        assert(views(out@) =~= before.push(all.last()));
    }
    out
}

/// `s` without the bytes of `class` that it begins with.
pub open spec fn without_leading(s: Seq<u8>, class: ByteClass) -> Seq<u8>
    decreases s.len(),
{
    if s.len() > 0 && class.holds(s[0]) {
        without_leading(s.drop_first(), class)
    } else {
        s
    }
}

/// `s` without the bytes of `class` that it ends with.
pub open spec fn without_trailing(s: Seq<u8>, class: ByteClass) -> Seq<u8>
    decreases s.len(),
{
    if s.len() > 0 && class.holds(s.last()) {
        without_trailing(s.drop_last(), class)
    } else {
        s
    }
}

/// `s` without the whitespace around it.
pub open spec fn trimmed(s: Seq<u8>) -> Seq<u8> {
    without_trailing(without_leading(s, ByteClass::Whitespace), ByteClass::Whitespace)
}

/// `s` neither begins nor ends with whitespace.
pub open spec fn is_trimmed(s: Seq<u8>) -> bool {
    s.len() > 0 ==> !ByteClass::Whitespace.holds(s[0]) && !ByteClass::Whitespace.holds(s.last())
}

/// What is left after stripping the end is a prefix of `s` that does not end
/// in a byte of `class`, and only bytes of `class` were taken away.
pub proof fn lemma_without_trailing(s: Seq<u8>, class: ByteClass)
    ensures
        without_trailing(s, class).len() <= s.len(),
        without_trailing(s, class) == s.take(without_trailing(s, class).len() as int),
        without_trailing(s, class).len() > 0 ==> !class.holds(without_trailing(s, class).last()),
        forall|i: int| without_trailing(s, class).len() <= i < s.len() ==> class.holds(s[i]),
    decreases s.len(),
{
    if s.len() > 0 && class.holds(s.last()) {
        lemma_without_trailing(s.drop_last(), class);
        let t = without_trailing(s, class);
        assert(t =~= s.take(t.len() as int));
        assert forall|i: int| t.len() <= i < s.len() implies class.holds(s[i]) by {
            if i < s.len() - 1 {
                assert(s[i] == s.drop_last()[i]);
            }
        }
    } else {
        assert(s =~= s.take(s.len() as int));
    }
}

/// What is left after stripping the start is a suffix of `s` that does not
/// begin with a byte of `class`, and only bytes of `class` were taken away.
pub proof fn lemma_without_leading(s: Seq<u8>, class: ByteClass)
    ensures
        without_leading(s, class).len() <= s.len(),
        without_leading(s, class) == s.skip(s.len() - without_leading(s, class).len()),
        without_leading(s, class).len() > 0 ==> !class.holds(without_leading(s, class)[0]),
        forall|i: int| 0 <= i < s.len() - without_leading(s, class).len() ==> class.holds(s[i]),
    decreases s.len(),
{
    if s.len() > 0 && class.holds(s[0]) {
        lemma_without_leading(s.drop_first(), class);
        let t = without_leading(s, class);
        assert(t =~= s.skip(s.len() - t.len()));
        assert forall|i: int| 0 <= i < s.len() - t.len() implies class.holds(s[i]) by {
            if i > 0 {
                assert(s[i] == s.drop_first()[i - 1]);
            }
        }
    } else {
        assert(s =~= s.skip(0));
    }
}

/// Trimming leaves a trimmed string as it is.
pub proof fn lemma_trimmed_is_fixed(s: Seq<u8>)
    requires
        is_trimmed(s),
    ensures
        trimmed(s) == s,
{
}

/// `s` without the bytes of `class` that it begins with.
pub fn trim_start_matches(s: &[u8], class: ByteClass) -> (r: &[u8])
    ensures
        r@ == without_leading(s@, class),
{
    let mut a: usize = 0;
    assert(s@.skip(0) =~= s@);
    while a < s.len() && class.contains(s[a])
        invariant
            a <= s@.len(),
            without_leading(s@, class) == without_leading(s@.skip(a as int), class),
        decreases s@.len() - a,
    {
        assert(s@.skip(a as int).drop_first() =~= s@.skip(a + 1));
        a += 1;
    }
    slice_subrange(s, a, s.len())
}

/// `s` without the bytes of `class` that it ends with.
pub fn trim_end_matches(s: &[u8], class: ByteClass) -> (r: &[u8])
    ensures
        r@ == without_trailing(s@, class),
{
    let mut b: usize = s.len();
    assert(s@.take(b as int) =~= s@);
    while b > 0 && class.contains(s[b - 1])
        invariant
            b <= s@.len(),
            without_trailing(s@, class) == without_trailing(s@.take(b as int), class),
        decreases b,
    {
        assert(s@.take(b as int).drop_last() =~= s@.take(b - 1));
        b -= 1;
    }
    slice_subrange(s, 0, b)
}

/// `s` without the whitespace around it.
pub fn trim(s: &[u8]) -> (r: &[u8])
    ensures
        r@ == trimmed(s@),
{
    trim_end_matches(trim_start_matches(s, ByteClass::Whitespace), ByteClass::Whitespace)
}

/// `b` is one of the ten decimal digits.
pub open spec fn is_digit(b: u8) -> bool {
    ZERO <= b <= NINE
}

/// `s` is a decimal numeral: one digit or more and nothing else.
pub open spec fn is_decimal(s: Seq<u8>) -> bool {
    s.len() > 0 && forall|i: int| 0 <= i < s.len() ==> is_digit(s[i])
}

/// The number that a string of digits denotes; a byte that is no digit
/// counts as zero.
pub open spec fn decimal_value(s: Seq<u8>) -> nat
    decreases s.len(),
{
    if s.len() == 0 {
        0
    } else {
        decimal_value(s.drop_last()) * 10 + if is_digit(s.last()) {
            (s.last() - ZERO) as nat
        } else {
            0
        }
    }
}

/// The decimal numeral of `n`, without leading zeros.
pub open spec fn decimal_digits(n: nat) -> Seq<u8>
    decreases n,
{
    if n < 10 {
        seq![(ZERO + n) as u8]
    } else {
        decimal_digits(n / 10).push((ZERO + n % 10) as u8)
    }
}

/// Reading the numeral of a number gives the number back.
pub proof fn lemma_decimal_round_trip(n: nat)
    ensures
        is_decimal(decimal_digits(n)),
        decimal_value(decimal_digits(n)) == n,
    decreases n,
{
    if n < 10 {
        let d = decimal_digits(n);
        assert(d.drop_last() =~= Seq::<u8>::empty());
        assert(decimal_value(d.drop_last()) == 0);
    } else {
        lemma_decimal_round_trip(n / 10);
        let d = decimal_digits(n);
        assert(d.drop_last() =~= decimal_digits(n / 10));
    }
}

/// The decimal numeral of `n`.
pub fn to_decimal(n: usize) -> (r: Vec<u8>)
    ensures
        r@ == decimal_digits(n as nat),
    decreases n,
{
    if n < 10 {
        let mut v: Vec<u8> = Vec::new();
        v.push(ZERO + n as u8);
        assert(v@ =~= decimal_digits(n as nat));
        v
    } else {
        let mut v = to_decimal(n / 10);
        v.push(ZERO + (n % 10) as u8);
        v
    }
}

/// Whether `s` is a decimal numeral.
pub fn is_numeral(s: &[u8]) -> (r: bool)
    ensures
        r == is_decimal(s@),
{
    if s.len() == 0 {
        return false;
    }
    let mut i: usize = 0;
    while i < s.len()
        invariant
            i <= s@.len(),
            forall|j: int| 0 <= j < i ==> is_digit(s@[j]),
        decreases s@.len() - i,
    {
        if s[i] < ZERO || s[i] > NINE {
            return false;
        }
        i += 1;
    }
    true
}

/// Reads `s` as a decimal numeral of a number that is at most `max`.
pub fn parse_decimal(s: &[u8], max: usize) -> (r: Option<usize>)
    ensures
        match r {
            Some(v) => is_decimal(s@) && v == decimal_value(s@) && v <= max,
            None => !is_decimal(s@) || decimal_value(s@) > max,
        },
{
    if s.len() == 0 {
        return None;
    }
    let mut acc: usize = 0;
    let mut over: bool = false;
    let mut i: usize = 0;
    assert(s@.take(0) =~= Seq::<u8>::empty());
    while i < s.len()
        invariant
            i <= s@.len(),
            forall|j: int| 0 <= j < i ==> is_digit(s@[j]),
            !over ==> acc == decimal_value(s@.take(i as int)) && acc <= max,
            over ==> decimal_value(s@.take(i as int)) > max,
        decreases s@.len() - i,
    {
        let b = s[i];
        if b < ZERO || b > NINE {
            return None;
        }
        let d: usize = (b - ZERO) as usize;
        assert(s@.take(i + 1).drop_last() =~= s@.take(i as int));
        assert(s@.take(i + 1).last() == b);
        if !over {
            if d > max || acc > (max - d) / 10 {
                over = true;
            } else {
                acc = acc * 10 + d;
            }
        }
        i += 1;
    }
    assert(s@.take(s@.len() as int) =~= s@);
    if over {
        None
    } else {
        Some(acc)
    }
}

/// The lower-case form of an ASCII letter; any other byte is itself.
pub open spec fn lower(b: u8) -> u8 {
    if UPPER_A <= b <= UPPER_Z {
        (b + CASE_GAP) as u8
    } else {
        b
    }
}

/// `a` and `b` are equal but for the case of ASCII letters.
pub open spec fn same_ignoring_case(a: Seq<u8>, b: Seq<u8>) -> bool {
    a.len() == b.len() && forall|i: int| 0 <= i < a.len() ==> lower(a[i]) == lower(b[i])
}

/// `s` with every ASCII letter in lower case.
pub open spec fn folded(s: Seq<u8>) -> Seq<u8> {
    s.map_values(|b: u8| lower(b))
}

/// Two strings are equal but for letter case just when their lower-case
/// forms are equal.
pub proof fn lemma_same_ignoring_case(a: Seq<u8>, b: Seq<u8>)
    ensures
        same_ignoring_case(a, b) <==> folded(a) == folded(b),
{
    if same_ignoring_case(a, b) {
        assert(folded(a) =~= folded(b));
    }
    if folded(a) == folded(b) {
        assert(a.len() == folded(a).len());
        assert(b.len() == folded(b).len());
        assert forall|i: int| 0 <= i < a.len() implies lower(a[i]) == lower(b[i]) by {
            assert(folded(a)[i] == lower(a[i]));
            assert(folded(b)[i] == lower(b[i]));
        }
    }
}

/// The lower-case form of an ASCII letter; any other byte is itself.
pub fn to_lower(b: u8) -> (r: u8)
    ensures
        r == lower(b),
{
    if UPPER_A <= b && b <= UPPER_Z {
        b + CASE_GAP
    } else {
        b
    }
}

/// Whether `a` and `b` are equal but for the case of ASCII letters.
pub fn eq_ignore_case(a: &[u8], b: &[u8]) -> (r: bool)
    ensures
        r == same_ignoring_case(a@, b@),
{
    if a.len() != b.len() {
        return false;
    }
    let mut i: usize = 0;
    while i < a.len()
        invariant
            a@.len() == b@.len(),
            i <= a@.len(),
            forall|j: int| 0 <= j < i ==> lower(a@[j]) == lower(b@[j]),
        decreases a@.len() - i,
    {
        if to_lower(a[i]) != to_lower(b[i]) {
            return false;
        }
        i += 1;
    }
    true
}

} // verus!
