//! Parsers for logical unit identifiers and for the markers that carry them.
//!
//! A unit is defined by a definiendum, `|FOO.1::BAR.2|`, and referred to by
//! a reference, `[FOO.1::BAR.2]`. Both wrap the identifier grammar of
//! [`crate::grammar`].

use vstd::prelude::*;
use crate::decimal::{digits_value, is_digit, lemma_digits_value_push, value_of_digit};
use crate::grammar::{
    digit_run_end, id_text, is_id, is_id_text, is_init_char, is_letter, is_tag, is_tag_char,
    lemma_digit_run_unique, lemma_id_text_iff_scanned, lemma_scan_id_complete,
    lemma_scan_id_sound, lemma_scan_part_sound, lemma_tag_run_unique, parsed_id, scan_id,
    scan_more,
    scan_part, tag_run_end, PartView,
};
use crate::text::{chars_of, string_of_range};

verus! {

/// A string that is not a well-formed identifier, definiendum or reference.
#[derive(Debug, Clone, PartialEq, Eq)]
pub struct IdParseError {
    /// The text that could not be parsed.
    pub input: String,
}

impl IdParseError {
    /// A message that names the offending text.
    pub fn to_string(&self) -> (r: String)
        ensures
            r@ == "malformed logical unit id: "@ + self.input@,
    {
        let mut r = "malformed logical unit id: ".to_owned();
        r.push_str(self.input.as_str());
        r
    }
}

/// The parts of an identifier as the grammar sees them.
pub open spec fn parts_view(parts: Seq<(String, u32)>) -> Seq<PartView> {
    Seq::new(parts.len(), |i: int| (parts[i].0@, parts[i].1))
}

fn letter(c: char) -> (b: bool)
    ensures
        b == is_letter(c),
{
    ('a' <= c && c <= 'z') || ('A' <= c && c <= 'Z')
}

fn digit(c: char) -> (b: bool)
    ensures
        b == is_digit(c),
{
    '0' <= c && c <= '9'
}

fn init_char(c: char) -> (b: bool)
    ensures
        b == is_init_char(c),
{
    letter(c) || c == '_'
}

fn tag_char(c: char) -> (b: bool)
    ensures
        b == is_tag_char(c),
{
    init_char(c) || digit(c) || c == '-'
}

/// Whether `tag` is a tag: an initial character followed by at least one
/// tag character.
pub fn is_tag_text(tag: &str) -> (r: bool)
    ensures
        r == is_tag(tag@),
{
    let s = chars_of(tag);
    if s.len() < 2 || !init_char(s[0]) {
        return false;
    }
    let mut i: usize = 0;
    while i < s.len()
        invariant
            s@ == tag@,
            i <= s.len(),
            forall|k: int| 0 <= k < i ==> is_tag_char(#[trigger] s@[k]),
        decreases s.len() - i,
    {
        if !tag_char(s[i]) {
            return false;
        }
        i += 1;
    }
    true
}

/// Reads tag characters from `i` on, as far as they go.
fn read_tag_run(s: &Vec<char>, i: usize) -> (e: usize)
    requires
        i <= s.len(),
    ensures
        e == tag_run_end(s@, i as int),
        i <= e <= s.len(),
{
    let mut j = i;
    while j < s.len() && tag_char(s[j])
        invariant
            i <= j <= s.len(),
            forall|k: int| i <= k < j ==> is_tag_char(#[trigger] s@[k]),
        decreases s.len() - j,
    {
        j += 1;
    }
    proof {
        lemma_tag_run_unique(s@, i as int, j as int);
    }
    j
}

/// Reads digits from `i` on, as far as they go, and the number they denote
/// where it fits in 32 bits.
fn read_digit_run(s: &Vec<char>, i: usize) -> (r: (usize, Option<u32>))
    requires
        i <= s.len(),
    ensures
        r.0 == digit_run_end(s@, i as int),
        i <= r.0 <= s.len(),
        r.1 == if digits_value(s@.subrange(i as int, r.0 as int)) <= u32::MAX {
            Some(digits_value(s@.subrange(i as int, r.0 as int)) as u32)
        } else {
            None
        },
{
    let mut j = i;
    let mut acc: u64 = 0;
    let mut fits = true;
    assert(s@.subrange(i as int, i as int).len() == 0);
    while j < s.len() && digit(s[j])
        invariant
            i <= j <= s.len(),
            forall|k: int| i <= k < j ==> is_digit(#[trigger] s@[k]),
            fits ==> acc == digits_value(s@.subrange(i as int, j as int)) && acc <= u32::MAX,
            !fits ==> digits_value(s@.subrange(i as int, j as int)) > u32::MAX,
        decreases s.len() - j,
    {
        let d = value_of_digit(s[j]);
        proof {
            lemma_digits_value_push(s@.subrange(i as int, j as int), s@[j as int]);
            assert(s@.subrange(i as int, j + 1) =~= s@.subrange(i as int, j as int).push(
                s@[j as int],
            ));
        }
        if fits {
            let n: u64 = acc * 10 + d;
            if n > 0xffff_ffff {
                fits = false;
            } else {
                acc = n;
            }
        }
        j += 1;
    }
    proof {
        lemma_digit_run_unique(s@, i as int, j as int);
    }
    if fits {
        (j, Some(acc as u32))
    } else {
        (j, None)
    }
}

/// Reads the part that starts at `i`.
fn read_part(s: &Vec<char>, i: usize) -> (r: Option<(usize, (String, u32))>)
    requires
        i <= s.len(),
    ensures
        match r {
            Some((e, p)) => scan_part(s@, i as int) == Some((e as int, (p.0@, p.1))),
            None => scan_part(s@, i as int) is None,
        },
{
    if i >= s.len() || !init_char(s[i]) {
        return None;
    }
    let t = read_tag_run(s, i);
    if t - i < 2 || t >= s.len() || s[t] != '.' {
        return None;
    }
    let (d, version) = read_digit_run(s, t + 1);
    if d <= t + 1 || s[t + 1] == '0' {
        return None;
    }
    match version {
        Some(v) => Some((d, (string_of_range(s, i, t), v))),
        None => None,
    }
}

/// Reads the longest identifier that starts at `i`.
pub fn read_id(s: &Vec<char>, i: usize) -> (r: Option<(usize, Vec<(String, u32)>)>)
    requires
        i <= s.len(),
    ensures
        match r {
            Some((e, parts)) => scan_id(s@, i as int) == Some((e as int, parts_view(parts@))),
            None => scan_id(s@, i as int) is None,
        },
{
    let first = read_part(s, i);
    let (mut e, p) = match first {
        Some(found) => found,
        None => {
            return None;
        },
    };
    proof {
        lemma_scan_part_sound(s@, i as int);
    }
    let mut parts: Vec<(String, u32)> = Vec::new();
    parts.push(p);
    assert(parts_view(parts@) =~= seq![(p.0@, p.1)]);
    loop
        invariant
            i < e <= s.len(),
            scan_id(s@, i as int) == Some(
                (scan_more(s@, e as int).0, parts_view(parts@) + scan_more(s@, e as int).1),
            ),
        ensures
            scan_id(s@, i as int) == Some((e as int, parts_view(parts@))),
        decreases s.len() - e,
    {
        if s.len() - e < 2 || s[e] != ':' || s[e + 1] != ':' {
            assert(parts_view(parts@) + Seq::<PartView>::empty() =~= parts_view(parts@));
            break;
        }
        match read_part(s, e + 2) {
            Some((next, q)) => {
                proof {
                    lemma_scan_part_sound(s@, e + 2);
                }
                let ghost before = parts_view(parts@);
                parts.push(q);
                assert(parts_view(parts@) =~= before + seq![(q.0@, q.1)]);
                assert(before + (seq![(q.0@, q.1)] + scan_more(s@, next as int).1) =~= (before
                    + seq![(q.0@, q.1)]) + scan_more(s@, next as int).1);
                e = next;
            },
            None => {
                assert(parts_view(parts@) + Seq::<PartView>::empty() =~= parts_view(parts@));
                break;
            },
        }
    }
    Some((e, parts))
}

/// Parses `s` as an identifier: `FOO.1::BAR-BAZ.2` gives the parts
/// `("FOO", 1)` and `("BAR-BAZ", 2)`.
///
/// Succeeds exactly when all of `s` is the canonical text of an identifier,
/// and then returns that identifier.
pub fn logical_unit_id(s: &str) -> (r: Result<Vec<(String, u32)>, IdParseError>)
    ensures
        r is Ok <==> is_id_text(s@),
        match r {
            Ok(parts) => {
                &&& parsed_id(s@) == Some(parts_view(parts@))
                &&& is_id(parts_view(parts@))
                &&& id_text(parts_view(parts@)) == s@
            },
            Err(e) => e.input@ == s@,
        },
{
    let chars = chars_of(s);
    proof {
        lemma_id_text_iff_scanned(s@);
    }
    match read_id(&chars, 0) {
        Some((e, parts)) => {
            if e == chars.len() {
                proof {
                    lemma_scan_id_sound(s@, 0);
                    assert(s@.subrange(0, s@.len() as int) =~= s@);
                }
                Ok(parts)
            } else {
                Err(IdParseError { input: s.to_owned() })
            }
        },
        None => Err(IdParseError { input: s.to_owned() }),
    }
}

/// Whether `s` is the canonical text of an identifier between the
/// characters `open` and `close`.
pub open spec fn is_wrapped_id(s: Seq<char>, open: char, close: char) -> bool {
    &&& s.len() >= 2
    &&& s[0] == open
    &&& s.last() == close
    &&& is_id_text(s.subrange(1, s.len() - 1))
}

/// Whether `s` is a definiendum: `|id|`.
pub open spec fn is_definiendum(s: Seq<char>) -> bool {
    is_wrapped_id(s, '|', '|')
}

/// Whether `s` is a reference: `[id]`.
pub open spec fn is_reference(s: Seq<char>) -> bool {
    is_wrapped_id(s, '[', ']')
}

/// Where the identifier that stands at `i` between `open` and `close` ends:
/// the position after `close`.
pub open spec fn wrapped_id_end(s: Seq<char>, i: int, open: char, close: char) -> Option<int> {
    if 0 <= i < s.len() && s[i] == open {
        match scan_id(s, i + 1) {
            Some((e, _)) => if e < s.len() && s[e] == close {
                Some(e + 1)
            } else {
                None
            },
            None => None,
        }
    } else {
        None
    }
}

/// An identifier stands wrapped at `i` and ends before `j` exactly when the
/// text from `i` to `j` is that wrapped identifier.
pub proof fn lemma_wrapped_id_end(s: Seq<char>, i: int, j: int, open: char, close: char)
    requires
        0 <= i <= j <= s.len(),
        !is_digit(close),
        close != ':',
    ensures
        wrapped_id_end(s, i, open, close) == Some(j) <==> is_wrapped_id(
            s.subrange(i, j),
            open,
            close,
        ),
{
    let w = s.subrange(i, j);
    if wrapped_id_end(s, i, open, close) == Some(j) {
        lemma_scan_id_sound(s, i + 1);
        let e = scan_id(s, i + 1).unwrap().0;
        assert(w[0] == s[i]);
        assert(w.last() == s[j - 1]);
        assert(w.subrange(1, w.len() - 1) =~= s.subrange(i + 1, e));
    }
    if is_wrapped_id(w, open, close) {
        let inner = w.subrange(1, w.len() - 1);
        let parts = choose|parts: Seq<PartView>| is_id(parts) && id_text(parts) == inner;
        assert(w[0] == s[i]);
        assert(w.last() == s[j - 1]);
        assert(s.subrange(i + 1, i + 1 + inner.len()) =~= inner);
        lemma_scan_id_complete(s, i + 1, parts);
    }
}

/// Reads the identifier that stands at `i` between `open` and `close`, and
/// gives its text with the position after `close`.
pub fn read_wrapped_id(s: &Vec<char>, i: usize, open: char, close: char) -> (r: Option<
    (usize, String),
>)
    requires
        i <= s.len(),
    ensures
        match r {
            Some((j, id)) => wrapped_id_end(s@, i as int, open, close) == Some(j as int) && i + 6
                <= j <= s.len() && id@ == s@.subrange(i + 1, j - 1) && is_id_text(id@),
            None => wrapped_id_end(s@, i as int, open, close) is None,
        },
{
    if i >= s.len() || s[i] != open {
        return None;
    }
    match read_id(s, i + 1) {
        Some((e, _)) => {
            proof {
                lemma_scan_id_sound(s@, i + 1);
            }
            if e < s.len() && s[e] == close {
                Some((e + 1, string_of_range(s, i + 1, e)))
            } else {
                None
            }
        },
        None => None,
    }
}

/// Parses `s` as an identifier between `open` and `close`.
fn wrapped_id(s: &str, open: char, close: char) -> (r: Result<String, IdParseError>)
    requires
        !is_digit(close),
        close != ':',
    ensures
        r is Ok <==> is_wrapped_id(s@, open, close),
        match r {
            Ok(id) => id@ == s@.subrange(1, s@.len() - 1),
            Err(e) => e.input@ == s@,
        },
{
    let chars = chars_of(s);
    proof {
        lemma_wrapped_id_end(s@, 0, s@.len() as int, open, close);
        assert(s@.subrange(0, s@.len() as int) =~= s@);
    }
    match read_wrapped_id(&chars, 0, open, close) {
        Some((j, id)) => {
            if j == chars.len() {
                Ok(id)
            } else {
                Err(IdParseError { input: s.to_owned() })
            }
        },
        None => Err(IdParseError { input: s.to_owned() }),
    }
}

/// Parses a definiendum: `|FOO.1::BAR.1|` gives `FOO.1::BAR.1`.
///
/// Succeeds exactly when all of `s` is an identifier between two bars, and
/// then returns the text of the identifier.
pub fn logical_unit_definiendum(s: &str) -> (r: Result<String, IdParseError>)
    ensures
        r is Ok <==> is_definiendum(s@),
        match r {
            Ok(id) => id@ == s@.subrange(1, s@.len() - 1),
            Err(e) => e.input@ == s@,
        },
{
    wrapped_id(s, '|', '|')
}

/// Parses a reference: `[FOO.1::BAR.1]` gives `FOO.1::BAR.1`.
///
/// Succeeds exactly when all of `s` is an identifier between square
/// brackets, and then returns the text of the identifier.
pub fn logical_unit_ref(s: &str) -> (r: Result<String, IdParseError>)
    ensures
        r is Ok <==> is_reference(s@),
        match r {
            Ok(id) => id@ == s@.subrange(1, s@.len() - 1),
            Err(e) => e.input@ == s@,
        },
{
    wrapped_id(s, '[', ']')
}

/// One piece of a text that was searched for references.
#[derive(Debug, Clone, PartialEq, Eq)]
pub enum UnitRefSearch {
    /// Text that holds no reference, as it stood.
    Text(String),
    /// The identifier of a reference, without its brackets.
    Ref(String),
}

/// One piece of a text that was searched for references, as a value of
/// specifications.
pub enum Segment {
    Text(Seq<char>),
    Ref(Seq<char>),
}

impl View for UnitRefSearch {
    type V = Segment;

    open spec fn view(&self) -> Segment {
        match self {
            UnitRefSearch::Text(t) => Segment::Text(t@),
            UnitRefSearch::Ref(r) => Segment::Ref(r@),
        }
    }
}

/// The pieces of `v`, each by its view.
pub open spec fn segments_view(v: Seq<UnitRefSearch>) -> Seq<Segment> {
    Seq::new(v.len(), |i: int| v[i]@)
}

/// Where the reference that starts at `i` ends, if one starts there.
pub open spec fn ref_end(s: Seq<char>, i: int) -> Option<int> {
    wrapped_id_end(s, i, '[', ']')
}

/// Where the text without references that starts at `i` ends: at the first
/// reference from `i` on, or with the text.
pub open spec fn text_end(s: Seq<char>, i: int) -> int
    decreases s.len() - i,
{
    if 0 <= i < s.len() && ref_end(s, i) is None {
        text_end(s, i + 1)
    } else {
        i
    }
}

/// The pieces of `s` from `i` on: each reference is a piece, and so is each
/// longest run of text between references.
pub open spec fn segments_from(s: Seq<char>, i: int) -> Seq<Segment>
    decreases s.len() - i,
{
    if 0 <= i < s.len() {
        match ref_end(s, i) {
            Some(j) => if i < j <= s.len() {
                seq![Segment::Ref(s.subrange(i + 1, j - 1))] + segments_from(s, j)
            } else {
                Seq::empty()
            },
            None => if i < text_end(s, i + 1) <= s.len() {
                seq![Segment::Text(s.subrange(i, text_end(s, i + 1)))] + segments_from(
                    s,
                    text_end(s, i + 1),
                )
            } else {
                Seq::empty()
            },
        }
    } else {
        Seq::empty()
    }
}

/// Whether one of the pieces is a reference.
pub open spec fn has_ref(segments: Seq<Segment>) -> bool {
    exists|k: int| 0 <= k < segments.len() && #[trigger] segments[k] is Ref
}

/// The pieces of `s`, if one of them is a reference.
pub open spec fn find_refs(s: Seq<char>) -> Option<Seq<Segment>> {
    if has_ref(segments_from(s, 0)) {
        Some(segments_from(s, 0))
    } else {
        None
    }
}

/// The text that a piece was read from.
pub open spec fn segment_source(segment: Segment) -> Seq<char> {
    match segment {
        Segment::Text(t) => t,
        Segment::Ref(r) => seq!['['] + r + seq![']'],
    }
}

/// The texts that the pieces were read from, one after the other.
pub open spec fn segments_source(segments: Seq<Segment>) -> Seq<char>
    decreases segments.len(),
{
    if segments.len() == 0 {
        Seq::empty()
    } else {
        segment_source(segments[0]) + segments_source(segments.drop_first())
    }
}

pub proof fn lemma_text_end(s: Seq<char>, i: int)
    requires
        0 <= i <= s.len(),
    ensures
        i <= text_end(s, i) <= s.len(),
        forall|k: int| i <= k < text_end(s, i) ==> ref_end(s, k) is None,
        text_end(s, i) < s.len() ==> ref_end(s, text_end(s, i)) is Some,
    decreases s.len() - i,
{
    if i < s.len() && ref_end(s, i) is None {
        lemma_text_end(s, i + 1);
    }
}

pub proof fn lemma_text_end_unique(s: Seq<char>, i: int, j: int)
    requires
        0 <= i <= j <= s.len(),
        forall|k: int| i <= k < j ==> ref_end(s, k) is None,
        j < s.len() ==> ref_end(s, j) is Some,
    ensures
        text_end(s, i) == j,
    decreases j - i,
{
    if i < j {
        assert(ref_end(s, i) is None);
        lemma_text_end_unique(s, i + 1, j);
    }
}

/// The pieces of a text, put back one after the other with each reference
/// in its brackets, are the text; each reference among them holds the
/// canonical text of an identifier; and no piece of text is empty or holds
/// a reference.
pub proof fn lemma_segments_cover(s: Seq<char>, i: int)
    requires
        0 <= i <= s.len(),
    ensures
        segments_source(segments_from(s, i)) == s.subrange(i, s.len() as int),
        forall|k: int|
            0 <= k < segments_from(s, i).len() ==> match #[trigger] segments_from(s, i)[k] {
                Segment::Ref(r) => is_id_text(r),
                Segment::Text(t) => t.len() > 0 && forall|a: int, b: int|
                    0 <= a <= b <= t.len() ==> !is_reference(#[trigger] t.subrange(a, b)),
            },
    decreases s.len() - i,
{
    let segs = segments_from(s, i);
    if i < s.len() {
        match ref_end(s, i) {
            Some(j) => {
                lemma_scan_id_sound(s, i + 1);
                lemma_segments_cover(s, j);
                let rest = segments_from(s, j);
                let first = Segment::Ref(s.subrange(i + 1, j - 1));
                assert(segs == seq![first] + rest);
                assert(segs.drop_first() =~= rest);
                assert(segs[0] == first);
                assert(s.subrange(i, s.len() as int) =~= (seq!['['] + s.subrange(i + 1, j - 1)
                    + seq![']']) + s.subrange(j, s.len() as int));
                assert forall|k: int| 0 <= k < segs.len() implies match #[trigger] segs[k] {
                    Segment::Ref(r) => is_id_text(r),
                    Segment::Text(t) => t.len() > 0 && forall|a: int, b: int|
                        0 <= a <= b <= t.len() ==> !is_reference(#[trigger] t.subrange(a, b)),
                } by {
                    if k > 0 {
                        assert(segs[k] == rest[k - 1]);
                    }
                }
            },
            None => {
                lemma_text_end(s, i + 1);
                let j = text_end(s, i + 1);
                lemma_segments_cover(s, j);
                let rest = segments_from(s, j);
                let t = s.subrange(i, j);
                let first = Segment::Text(t);
                assert(segs == seq![first] + rest);
                assert(segs.drop_first() =~= rest);
                assert(segs[0] == first);
                assert(s.subrange(i, s.len() as int) =~= t + s.subrange(j, s.len() as int));
                assert forall|a: int, b: int| 0 <= a <= b <= t.len() implies !is_reference(
                    #[trigger] t.subrange(a, b),
                ) by {
                    if is_reference(t.subrange(a, b)) {
                        assert(t.subrange(a, b) =~= s.subrange(i + a, i + b));
                        lemma_wrapped_id_end(s, i + a, i + b, '[', ']');
                        assert(ref_end(s, i + a) is Some);
                    }
                }
                assert forall|k: int| 0 <= k < segs.len() implies match #[trigger] segs[k] {
                    Segment::Ref(r) => is_id_text(r),
                    Segment::Text(t) => t.len() > 0 && forall|a: int, b: int|
                        0 <= a <= b <= t.len() ==> !is_reference(#[trigger] t.subrange(a, b)),
                } by {
                    if k > 0 {
                        assert(segs[k] == rest[k - 1]);
                    }
                }
            },
        }
    } else {
        assert(s.subrange(i, s.len() as int) =~= Seq::<char>::empty());
    }
}

/// Splits `s` into text and references: `"see [FOO.1] now"` gives the text
/// `"see "`, the reference `FOO.1` and the text `" now"`.
///
/// Returns the pieces in order, or `None` where `s` holds no reference, so
/// that a caller can leave such a text as it is.
pub fn find_logical_unit_refs(s: &str) -> (r: Option<Vec<UnitRefSearch>>)
    ensures
        match r {
            Some(segments) => find_refs(s@) == Some(segments_view(segments@)),
            None => find_refs(s@) is None,
        },
{
    let chars = chars_of(s);
    let mut out: Vec<UnitRefSearch> = Vec::new();
    let mut found = false;
    let mut start: usize = 0;
    let mut i: usize = 0;
    assert(segments_view(out@) + segments_from(s@, 0) =~= segments_from(s@, 0));
    while i < chars.len()
        invariant
            chars@ == s@,
            0 <= start <= i <= chars.len(),
            forall|k: int| start <= k < i ==> ref_end(s@, k) is None,
            segments_from(s@, 0) == segments_view(out@) + segments_from(s@, start as int),
            found == has_ref(segments_view(out@)),
        decreases chars.len() - i,
    {
        match read_wrapped_id(&chars, i, '[', ']') {
            Some((j, id)) => {
                if start < i {
                    proof {
                        lemma_text_end_unique(s@, start + 1, i as int);
                    }
                    let ghost before = segments_view(out@);
                    out.push(UnitRefSearch::Text(string_of_range(&chars, start, i)));
                    proof {
                        let text = Segment::Text(s@.subrange(start as int, i as int));
                        assert(segments_view(out@) =~= before.push(text));
                        assert(segments_from(s@, start as int) == seq![text] + segments_from(
                            s@,
                            i as int,
                        ));
                        assert(before + (seq![text] + segments_from(s@, i as int))
                            =~= before.push(text) + segments_from(s@, i as int));
                        assert(has_ref(before.push(text)) == has_ref(before)) by {
                            if has_ref(before) {
                                let k = choose|k: int|
                                    0 <= k < before.len() && #[trigger] before[k] is Ref;
                                assert(before.push(text)[k] is Ref);
                            }
                            if has_ref(before.push(text)) {
                                let k = choose|k: int|
                                    0 <= k < before.push(text).len() && #[trigger] before.push(
                                        text,
                                    )[k] is Ref;
                                assert(before[k] is Ref);
                            }
                        }
                    }
                }
                let ghost before = segments_view(out@);
                out.push(UnitRefSearch::Ref(id));
                proof {
                    let reference = Segment::Ref(s@.subrange(i + 1, j - 1));
                    assert(segments_view(out@) =~= before.push(reference));
                    assert(segments_from(s@, i as int) == seq![reference] + segments_from(
                        s@,
                        j as int,
                    ));
                    assert(before + (seq![reference] + segments_from(s@, j as int))
                        =~= before.push(reference) + segments_from(s@, j as int));
                    assert(before.push(reference)[before.len() as int] is Ref);
                }
                found = true;
                i = j;
                start = j;
            },
            None => {
                i += 1;
            },
        }
    }
    if start < i {
        proof {
            lemma_text_end_unique(s@, start + 1, i as int);
        }
        let ghost before = segments_view(out@);
        out.push(UnitRefSearch::Text(string_of_range(&chars, start, i)));
        proof {
            let text = Segment::Text(s@.subrange(start as int, i as int));
            assert(segments_view(out@) =~= before.push(text));
            assert(segments_from(s@, start as int) == seq![text] + segments_from(s@, i as int));
            assert(segments_from(s@, 0) =~= segments_view(out@));
            assert(has_ref(before.push(text)) == has_ref(before)) by {
                if has_ref(before) {
                    let k = choose|k: int| 0 <= k < before.len() && #[trigger] before[k] is Ref;
                    assert(before.push(text)[k] is Ref);
                }
                if has_ref(before.push(text)) {
                    let k = choose|k: int|
                        0 <= k < before.push(text).len() && #[trigger] before.push(text)[k] is Ref;
                    assert(before[k] is Ref);
                }
            }
        }
    } else {
        assert(segments_from(s@, 0) =~= segments_view(out@));
    }
    if found {
        Some(out)
    } else {
        None
    }
}

/// The identifier of the first definiendum that stands in `s` at `i` or
/// later.
pub open spec fn first_definiendum_from(s: Seq<char>, i: int) -> Option<Seq<char>>
    decreases s.len() - i,
{
    if 0 <= i < s.len() {
        match wrapped_id_end(s, i, '|', '|') {
            Some(j) => Some(s.subrange(i + 1, j - 1)),
            None => first_definiendum_from(s, i + 1),
        }
    } else {
        None
    }
}

/// Finds the first definiendum anywhere in a line of text, and gives the
/// text of its identifier: `"/// |FOO.1| more"` gives `FOO.1`.
pub fn find_tag_id(line: &str) -> (r: Option<String>)
    ensures
        match r {
            Some(id) => first_definiendum_from(line@, 0) == Some(id@) && is_id_text(id@),
            None => first_definiendum_from(line@, 0) is None,
        },
{
    let chars = chars_of(line);
    let mut i: usize = 0;
    while i < chars.len()
        invariant
            chars@ == line@,
            i <= chars.len(),
            first_definiendum_from(line@, 0) == first_definiendum_from(line@, i as int),
        decreases chars.len() - i,
    {
        match read_wrapped_id(&chars, i, '|', '|') {
            Some((_, id)) => {
                return Some(id);
            },
            None => {
                i += 1;
            },
        }
    }
    None
}

} // verus!
