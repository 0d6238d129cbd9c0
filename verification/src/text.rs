//! Conversions between strings and character sequences.
//!
//! The grammar and the scanners of this library work on `Vec<char>`, whose
//! view is the same `Seq<char>` that a string has.

use vstd::prelude::*;

verus! {

/// `String::push` appends one character to the string.
pub assume_specification[ String::push ](s: &mut String, c: char)
    ensures
        final(s)@ == old(s)@.push(c),
;

/// `String::push_str` appends a string slice to the string.
pub assume_specification[ String::push_str ](s: &mut String, other: &str)
    ensures
        final(s)@ == old(s)@ + other@,
;

/// The characters of `s`, in order.
pub fn chars_of(s: &str) -> (v: Vec<char>)
    ensures
        v@ == s@,
{
    let mut v: Vec<char> = Vec::new();
    for c in it: s.chars()
        invariant
            it.seq() == s@,
            v@ == s@.take(it.index() as int),
    {
        v.push(c);
        assert(s@.take(it.index() + 1) =~= s@.take(it.index() as int).push(c));
    }
    assert(s@.take(s@.len() as int) =~= s@);
    v
}

/// The string made of the characters `v[from..to]`.
pub fn string_of_range(v: &Vec<char>, from: usize, to: usize) -> (s: String)
    requires
        from <= to <= v.len(),
    ensures
        s@ == v@.subrange(from as int, to as int),
{
    let mut s = String::new();
    let mut i: usize = from;
    while i < to
        invariant
            from <= i <= to <= v.len(),
            s@ == v@.subrange(from as int, i as int),
        decreases to - i,
    {
        s.push(v[i]);
        assert(v@.subrange(from as int, i + 1) =~= v@.subrange(from as int, i as int).push(v@[i as int]));
        i += 1;
    }
    s
}

/// The string made of the characters of `v`.
pub fn string_of(v: &Vec<char>) -> (s: String)
    ensures
        s@ == v@,
{
    let s = string_of_range(v, 0, v.len());
    assert(v@.subrange(0, v@.len() as int) =~= v@);
    s
}

/// Whether `pat` stands in `s` at `i`.
pub open spec fn has_at(s: Seq<char>, i: int, pat: Seq<char>) -> bool {
    0 <= i && i + pat.len() <= s.len() && s.subrange(i, i + pat.len()) == pat
}

/// `s` with each occurrence of `from` replaced by `to`, from `i` on. The
/// occurrences are taken from left to right and do not overlap.
pub open spec fn replaced_from(s: Seq<char>, i: int, from: Seq<char>, to: Seq<char>) -> Seq<char>
    decreases s.len() - i,
{
    if 0 <= i < s.len() && from.len() > 0 {
        if has_at(s, i, from) {
            to + replaced_from(s, i + from.len(), from, to)
        } else {
            seq![s[i]] + replaced_from(s, i + 1, from, to)
        }
    } else {
        Seq::empty()
    }
}

/// `s` from `i` on, with `to` behind each character.
pub open spec fn followed_by(s: Seq<char>, i: int, to: Seq<char>) -> Seq<char>
    decreases s.len() - i,
{
    if 0 <= i < s.len() {
        seq![s[i]] + to + followed_by(s, i + 1, to)
    } else {
        Seq::empty()
    }
}

/// `s` with each occurrence of `from` replaced by `to`. The empty text
/// occurs before each character and at the end.
pub open spec fn replaced(s: Seq<char>, from: Seq<char>, to: Seq<char>) -> Seq<char> {
    if from.len() == 0 {
        to + followed_by(s, 0, to)
    } else {
        replaced_from(s, 0, from, to)
    }
}

/// `s` without `suffix` at its end, where it ends with it.
pub open spec fn without_suffix(s: Seq<char>, suffix: Seq<char>) -> Seq<char> {
    if has_at(s, s.len() - suffix.len(), suffix) {
        s.subrange(0, s.len() - suffix.len())
    } else {
        s
    }
}

/// The texts of `items` with `sep` between each two.
pub open spec fn joined(items: Seq<Seq<char>>, sep: Seq<char>) -> Seq<char>
    decreases items.len(),
{
    if items.len() == 0 {
        Seq::empty()
    } else if items.len() == 1 {
        items[0]
    } else {
        joined(items.drop_last(), sep) + sep + items.last()
    }
}

/// The views of the strings of `items`.
pub open spec fn strings_view(items: Seq<String>) -> Seq<Seq<char>> {
    Seq::new(items.len(), |i: int| items[i]@)
}

/// Whether `pat` stands in `s` at `i`.
pub fn matches_at(s: &Vec<char>, i: usize, pat: &Vec<char>) -> (b: bool)
    requires
        i <= s.len(),
    ensures
        b == has_at(s@, i as int, pat@),
{
    if pat.len() > s.len() - i {
        return false;
    }
    let mut k: usize = 0;
    while k < pat.len()
        invariant
            i + pat.len() <= s.len(),
            k <= pat.len(),
            forall|j: int| 0 <= j < k ==> s@[i + j] == pat@[j],
        decreases pat.len() - k,
    {
        if s[i + k] != pat[k] {
            assert(s@.subrange(i as int, i + pat.len())[k as int] != pat@[k as int]);
            return false;
        }
        k += 1;
    }
    assert(s@.subrange(i as int, i + pat.len()) =~= pat@);
    true
}

/// `s` with each occurrence of `from` replaced by `to`, as `str::replace`
/// gives it.
pub fn replace_all(s: &str, from: &str, to: &str) -> (r: String)
    ensures
        r@ == replaced(s@, from@, to@),
{
    let chars = chars_of(s);
    let pat = chars_of(from);
    let mut out = String::new();
    let mut i: usize = 0;
    if pat.len() == 0 {
        out.push_str(to);
        assert(out@ + followed_by(s@, 0, to@) =~= replaced(s@, from@, to@));
        while i < chars.len()
            invariant
                chars@ == s@,
                from@.len() == 0,
                i <= chars.len(),
                out@ + followed_by(s@, i as int, to@) == replaced(s@, from@, to@),
            decreases chars.len() - i,
        {
            let ghost before = out@;
            out.push(chars[i]);
            out.push_str(to);
            assert(before + (seq![s@[i as int]] + to@ + followed_by(s@, i + 1, to@)) =~= out@
                + followed_by(s@, i + 1, to@));
            i += 1;
        }
        assert(out@ + Seq::<char>::empty() =~= out@);
        return out;
    }
    assert(out@ + replaced_from(s@, 0, from@, to@) =~= replaced(s@, from@, to@));
    while i < chars.len()
        invariant
            chars@ == s@,
            pat@ == from@,
            from@.len() > 0,
            i <= chars.len(),
            out@ + replaced_from(s@, i as int, from@, to@) == replaced(s@, from@, to@),
        decreases chars.len() - i,
    {
        let ghost before = out@;
        if matches_at(&chars, i, &pat) {
            out.push_str(to);
            assert(before + (to@ + replaced_from(s@, i + from@.len(), from@, to@)) =~= (before
                + to@) + replaced_from(s@, i + from@.len(), from@, to@));
            i += pat.len();
        } else {
            out.push(chars[i]);
            assert(before + (seq![s@[i as int]] + replaced_from(s@, i + 1, from@, to@))
                =~= before.push(s@[i as int]) + replaced_from(s@, i + 1, from@, to@));
            i += 1;
        }
    }
    assert(out@ + Seq::<char>::empty() =~= out@);
    out
}

/// `s` without `suffix` at its end, where it ends with it.
pub fn strip_suffix(s: &str, suffix: &str) -> (r: String)
    ensures
        r@ == without_suffix(s@, suffix@),
{
    let chars = chars_of(s);
    let pat = chars_of(suffix);
    if pat.len() <= chars.len() && matches_at(&chars, chars.len() - pat.len(), &pat) {
        string_of_range(&chars, 0, chars.len() - pat.len())
    } else {
        s.to_owned()
    }
}

/// Whether `s` starts with `prefix`.
pub fn starts_with(s: &str, prefix: &str) -> (b: bool)
    ensures
        b == has_at(s@, 0, prefix@),
{
    let chars = chars_of(s);
    let pat = chars_of(prefix);
    matches_at(&chars, 0, &pat)
}

/// The strings of `items` with `sep` between each two.
pub fn join(items: &Vec<String>, sep: &str) -> (r: String)
    ensures
        r@ == joined(strings_view(items@), sep@),
{
    let mut out = String::new();
    let mut i: usize = 0;
    while i < items.len()
        invariant
            i <= items.len(),
            out@ == joined(strings_view(items@).take(i as int), sep@),
        decreases items.len() - i,
    {
        let ghost all = strings_view(items@);
        if i > 0 {
            out.push_str(sep);
        }
        out.push_str(items[i].as_str());
        proof {
            assert(all.take(i + 1).drop_last() =~= all.take(i as int));
            assert(all.take(i + 1).last() == items@[i as int]@);
            if i == 0 {
                assert(out@ =~= items@[i as int]@);
            }
        }
        i += 1;
    }
    assert(strings_view(items@).take(items@.len() as int) =~= strings_view(items@));
    out
}

/// Whether the two strings hold the same text.
pub fn same_text(a: &str, b: &str) -> (r: bool)
    ensures
        r == (a@ == b@),
{
    let x = chars_of(a);
    let y = chars_of(b);
    if x.len() != y.len() {
        return false;
    }
    let r = matches_at(&x, 0, &y);
    assert(x@.subrange(0, y@.len() as int) =~= x@);
    r
}

/// Whether `pat` stands somewhere in `s`.
pub open spec fn holds_text(s: Seq<char>, pat: Seq<char>) -> bool {
    exists|i: int| has_at(s, i, pat)
}

/// Whether `pat` stands somewhere in `s`.
pub fn contains(s: &str, pat: &str) -> (r: bool)
    ensures
        r == holds_text(s@, pat@),
{
    let chars = chars_of(s);
    let p = chars_of(pat);
    let mut i: usize = 0;
    while i < chars.len()
        invariant
            chars@ == s@,
            p@ == pat@,
            i <= chars.len(),
            forall|k: int| 0 <= k < i ==> !has_at(s@, k, pat@),
        decreases chars.len() - i,
    {
        if matches_at(&chars, i, &p) {
            return true;
        }
        i += 1;
    }
    let last = matches_at(&chars, i, &p);
    assert(!last ==> !holds_text(s@, pat@)) by {
        if !last {
            assert forall|k: int| !has_at(s@, k, pat@) by {
                if k > s@.len() {
                    assert(k + pat@.len() > s@.len());
                }
            }
        }
    }
    last
}

} // verus!
