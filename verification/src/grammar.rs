//! The grammar of logical unit identifiers, as a specification.
//!
//! ```text
//! id      := part ("::" part)*
//! part    := tag "." version
//! tag     := (letter | "_") (letter | digit | "-" | "_")+
//! version := [1-9] [0-9]*
//! ```
//!
//! An identifier is a sequence of parts; its canonical text is given by
//! [`id_text`]. The scanner [`scan_id`] reads the longest identifier that
//! starts at a position of a text. The two are proved to agree: what the
//! scanner reads is the canonical text of the parts it returns, and the
//! canonical text of an identifier is read back as that identifier.

use vstd::prelude::*;
use crate::decimal::{
    decimal, digits_value, is_digit, is_positive_numeral, lemma_decimal_is_numeral,
    lemma_numeral_is_decimal,
};

verus! {

/// One part of an identifier: its tag and its version.
pub type PartView = (Seq<char>, u32);

pub open spec fn is_letter(c: char) -> bool {
    ('a' <= c <= 'z') || ('A' <= c <= 'Z')
}

/// A character that may start a tag.
pub open spec fn is_init_char(c: char) -> bool {
    is_letter(c) || c == '_'
}

/// A character that may stand in a tag after the first.
pub open spec fn is_tag_char(c: char) -> bool {
    is_init_char(c) || is_digit(c) || c == '-'
}

/// A tag: an initial character followed by at least one tag character.
pub open spec fn is_tag(t: Seq<char>) -> bool {
    &&& t.len() >= 2
    &&& is_init_char(t[0])
    &&& forall|i: int| 0 <= i < t.len() ==> is_tag_char(#[trigger] t[i])
}

/// A part: a tag with a positive version.
pub open spec fn is_part(p: PartView) -> bool {
    is_tag(p.0) && p.1 >= 1
}

/// An identifier: at least one part, each of them a part.
pub open spec fn is_id(parts: Seq<PartView>) -> bool {
    &&& parts.len() >= 1
    &&& forall|i: int| 0 <= i < parts.len() ==> is_part(#[trigger] parts[i])
}

/// The text of a part: `tag.version`.
pub open spec fn part_text(p: PartView) -> Seq<char> {
    p.0 + seq!['.'] + decimal(p.1 as nat)
}

/// The canonical text of an identifier: its parts joined by `::`.
pub open spec fn id_text(parts: Seq<PartView>) -> Seq<char>
    decreases parts.len(),
{
    if parts.len() == 0 {
        Seq::empty()
    } else if parts.len() == 1 {
        part_text(parts[0])
    } else {
        part_text(parts[0]) + seq![':', ':'] + id_text(parts.drop_first())
    }
}

/// Whether `s` is the canonical text of some identifier.
pub open spec fn is_id_text(s: Seq<char>) -> bool {
    exists|parts: Seq<PartView>| is_id(parts) && id_text(parts) == s
}

/// The parent of an identifier: the same parts but the last. An identifier
/// of one part has none.
pub open spec fn parent_of(parts: Seq<PartView>) -> Option<Seq<PartView>> {
    if parts.len() >= 2 {
        Some(parts.drop_last())
    } else {
        None
    }
}

/// Where the run of tag characters that starts at `i` ends.
pub open spec fn tag_run_end(s: Seq<char>, i: int) -> int
    decreases s.len() - i,
{
    if 0 <= i < s.len() && is_tag_char(s[i]) {
        tag_run_end(s, i + 1)
    } else {
        i
    }
}

/// Where the run of digits that starts at `i` ends.
pub open spec fn digit_run_end(s: Seq<char>, i: int) -> int
    decreases s.len() - i,
{
    if 0 <= i < s.len() && is_digit(s[i]) {
        digit_run_end(s, i + 1)
    } else {
        i
    }
}

/// The part that starts at `i`, with the position after it. The tag and the
/// version are each read as far as they go; a version that does not fit in
/// 32 bits is no version.
pub open spec fn scan_part(s: Seq<char>, i: int) -> Option<(int, PartView)> {
    let t = tag_run_end(s, i);
    let d = digit_run_end(s, t + 1);
    if 0 <= i < s.len() && is_init_char(s[i]) && t - i >= 2 && t < s.len() && s[t] == '.' && d > t
        + 1 && s[t + 1] != '0' && digits_value(s.subrange(t + 1, d)) <= u32::MAX {
        Some((d, (s.subrange(i, t), digits_value(s.subrange(t + 1, d)) as u32)))
    } else {
        None
    }
}

/// The parts that follow at `i`, each behind a `::`, as many as there are,
/// with the position after the last of them.
pub open spec fn scan_more(s: Seq<char>, i: int) -> (int, Seq<PartView>)
    decreases s.len() - i,
{
    if 0 <= i && i + 2 <= s.len() && s[i] == ':' && s[i + 1] == ':' {
        match scan_part(s, i + 2) {
            Some((e, p)) => if i < e <= s.len() {
                (scan_more(s, e).0, seq![p] + scan_more(s, e).1)
            } else {
                (i, Seq::empty())
            },
            None => (i, Seq::empty()),
        }
    } else {
        (i, Seq::empty())
    }
}

/// The longest identifier that starts at `i`, with the position after it.
pub open spec fn scan_id(s: Seq<char>, i: int) -> Option<(int, Seq<PartView>)> {
    match scan_part(s, i) {
        Some((e, p)) => Some((scan_more(s, e).0, seq![p] + scan_more(s, e).1)),
        None => None,
    }
}

/// The identifier that `s` is the text of: what the scanner reads from the
/// start of `s`, where it reads all of it.
pub open spec fn parsed_id(s: Seq<char>) -> Option<Seq<PartView>> {
    match scan_id(s, 0) {
        Some((e, parts)) => if e == s.len() {
            Some(parts)
        } else {
            None
        },
        None => None,
    }
}

/// Whether the text at `e` cannot continue an identifier that ends there:
/// the text ends, or goes on with neither a digit nor a colon.
pub open spec fn ends_id(s: Seq<char>, e: int) -> bool {
    e == s.len() || (0 <= e < s.len() && !is_digit(s[e]) && s[e] != ':')
}

pub proof fn lemma_tag_run(s: Seq<char>, i: int)
    requires
        0 <= i <= s.len(),
    ensures
        i <= tag_run_end(s, i) <= s.len(),
        forall|k: int| i <= k < tag_run_end(s, i) ==> is_tag_char(#[trigger] s[k]),
        tag_run_end(s, i) < s.len() ==> !is_tag_char(s[tag_run_end(s, i)]),
    decreases s.len() - i,
{
    if i < s.len() && is_tag_char(s[i]) {
        lemma_tag_run(s, i + 1);
    }
}

pub proof fn lemma_tag_run_unique(s: Seq<char>, i: int, j: int)
    requires
        0 <= i <= j <= s.len(),
        forall|k: int| i <= k < j ==> is_tag_char(#[trigger] s[k]),
        j < s.len() ==> !is_tag_char(s[j]),
    ensures
        tag_run_end(s, i) == j,
    decreases j - i,
{
    if i < j {
        assert(is_tag_char(s[i]));
        lemma_tag_run_unique(s, i + 1, j);
    }
}

pub proof fn lemma_digit_run(s: Seq<char>, i: int)
    requires
        0 <= i <= s.len(),
    ensures
        i <= digit_run_end(s, i) <= s.len(),
        forall|k: int| i <= k < digit_run_end(s, i) ==> is_digit(#[trigger] s[k]),
        digit_run_end(s, i) < s.len() ==> !is_digit(s[digit_run_end(s, i)]),
    decreases s.len() - i,
{
    if i < s.len() && is_digit(s[i]) {
        lemma_digit_run(s, i + 1);
    }
}

pub proof fn lemma_digit_run_unique(s: Seq<char>, i: int, j: int)
    requires
        0 <= i <= j <= s.len(),
        forall|k: int| i <= k < j ==> is_digit(#[trigger] s[k]),
        j < s.len() ==> !is_digit(s[j]),
    ensures
        digit_run_end(s, i) == j,
    decreases j - i,
{
    if i < j {
        assert(is_digit(s[i]));
        lemma_digit_run_unique(s, i + 1, j);
    }
}

/// What the part scanner reads is a part, and the text it read is the text
/// of that part.
pub proof fn lemma_scan_part_sound(s: Seq<char>, i: int)
    requires
        scan_part(s, i) is Some,
    ensures
        i + 4 <= scan_part(s, i).unwrap().0 <= s.len(),
        is_part(scan_part(s, i).unwrap().1),
        s.subrange(i, scan_part(s, i).unwrap().0) == part_text(scan_part(s, i).unwrap().1),
        scan_part(s, i).unwrap().0 < s.len() ==> !is_digit(s[scan_part(s, i).unwrap().0]),
{
    let t = tag_run_end(s, i);
    let d = digit_run_end(s, t + 1);
    lemma_tag_run(s, i);
    lemma_digit_run(s, t + 1);
    let tag = s.subrange(i, t);
    let num = s.subrange(t + 1, d);
    assert(is_tag(tag)) by {
        assert forall|k: int| 0 <= k < tag.len() implies is_tag_char(#[trigger] tag[k]) by {
            assert(tag[k] == s[i + k]);
        }
    }
    assert(is_positive_numeral(num)) by {
        assert forall|k: int| 0 <= k < num.len() implies is_digit(#[trigger] num[k]) by {
            assert(num[k] == s[t + 1 + k]);
        }
    }
    lemma_numeral_is_decimal(num);
    assert(s.subrange(i, d) =~= tag + seq!['.'] + num);
}

/// The text of a part, wherever it stands in a text and is not followed by
/// a digit, is read by the part scanner as that part.
pub proof fn lemma_scan_part_complete(s: Seq<char>, i: int, p: PartView)
    requires
        is_part(p),
        0 <= i,
        i + part_text(p).len() <= s.len(),
        s.subrange(i, i + part_text(p).len()) == part_text(p),
        i + part_text(p).len() < s.len() ==> !is_digit(s[i + part_text(p).len()]),
    ensures
        scan_part(s, i) == Some((i + part_text(p).len(), p)),
{
    let text = part_text(p);
    let num = decimal(p.1 as nat);
    let t = i + p.0.len();
    let d = i + text.len();
    lemma_decimal_is_numeral(p.1 as nat);
    assert(text.len() == p.0.len() + 1 + num.len());
    assert forall|k: int| 0 <= k < text.len() implies s[i + k] == #[trigger] text[k] by {
        assert(s.subrange(i, i + text.len())[k] == s[i + k]);
    }
    assert forall|k: int| i <= k < t implies is_tag_char(#[trigger] s[k]) by {
        assert(s[k] == text[k - i]);
        assert(text[k - i] == p.0[k - i]);
    }
    assert(s[t] == text[p.0.len() as int]);
    assert(s[t] == '.');
    lemma_tag_run_unique(s, i, t);
    assert forall|k: int| t + 1 <= k < d implies is_digit(#[trigger] s[k]) by {
        assert(s[k] == text[k - i]);
        assert(text[k - i] == num[k - t - 1]);
    }
    lemma_digit_run_unique(s, t + 1, d);
    assert(s[i] == text[0]);
    assert(text[0] == p.0[0]);
    assert(s[t + 1] == text[p.0.len() as int + 1]);
    assert(text[p.0.len() as int + 1] == num[0]);
    assert(s.subrange(i, t) =~= p.0);
    assert forall|k: int| 0 <= k < num.len() implies s.subrange(t + 1, d)[k] == num[k] by {
        assert(s[t + 1 + k] == text[t + 1 + k - i]);
    }
    assert(s.subrange(t + 1, d) =~= num);
}

pub proof fn lemma_scan_more_sound(s: Seq<char>, i: int)
    requires
        0 <= i <= s.len(),
    ensures
        i <= scan_more(s, i).0 <= s.len(),
        forall|k: int|
            0 <= k < scan_more(s, i).1.len() ==> is_part(#[trigger] scan_more(s, i).1[k]),
        scan_more(s, i).1.len() == 0 ==> scan_more(s, i).0 == i,
        scan_more(s, i).1.len() > 0 ==> s.subrange(i, scan_more(s, i).0) == seq![':', ':']
            + id_text(scan_more(s, i).1),
    decreases s.len() - i,
{
    if i + 2 <= s.len() && s[i] == ':' && s[i + 1] == ':' {
        match scan_part(s, i + 2) {
            Some((e, p)) => {
                lemma_scan_part_sound(s, i + 2);
                lemma_scan_more_sound(s, e);
                let rest = scan_more(s, e);
                let all = seq![p] + rest.1;
                assert(scan_more(s, i) == (rest.0, all));
                assert forall|k: int| 0 <= k < all.len() implies is_part(#[trigger] all[k]) by {
                    if k > 0 {
                        assert(all[k] == rest.1[k - 1]);
                    }
                }
                assert(all.drop_first() =~= rest.1);
                assert(all[0] == p);
                if rest.1.len() == 0 {
                    assert(id_text(all) == part_text(p));
                    assert(s.subrange(i, e) =~= seq![':', ':'] + s.subrange(i + 2, e));
                } else {
                    assert(id_text(all) == part_text(p) + seq![':', ':'] + id_text(rest.1));
                    assert(s.subrange(i, rest.0) =~= seq![':', ':'] + s.subrange(i + 2, e)
                        + s.subrange(e, rest.0));
                    assert(s.subrange(i, rest.0) =~= seq![':', ':'] + (part_text(p) + seq![
                        ':',
                        ':',
                    ] + id_text(rest.1)));
                }
            },
            None => {},
        }
    }
}

/// What the scanner reads is an identifier, and the text it read is the
/// canonical text of that identifier.
pub proof fn lemma_scan_id_sound(s: Seq<char>, i: int)
    requires
        scan_id(s, i) is Some,
    ensures
        i + 4 <= scan_id(s, i).unwrap().0 <= s.len(),
        is_id(scan_id(s, i).unwrap().1),
        s.subrange(i, scan_id(s, i).unwrap().0) == id_text(scan_id(s, i).unwrap().1),
{
    lemma_scan_part_sound(s, i);
    let e = scan_part(s, i).unwrap().0;
    let p = scan_part(s, i).unwrap().1;
    lemma_scan_more_sound(s, e);
    let rest = scan_more(s, e);
    let all = seq![p] + rest.1;
    assert(scan_id(s, i) == Some((rest.0, all)));
    assert forall|k: int| 0 <= k < all.len() implies is_part(#[trigger] all[k]) by {
        if k > 0 {
            assert(all[k] == rest.1[k - 1]);
        }
    }
    assert(all.drop_first() =~= rest.1);
    assert(all[0] == p);
    if rest.1.len() == 0 {
        assert(id_text(all) == part_text(p));
    } else {
        assert(id_text(all) == part_text(p) + seq![':', ':'] + id_text(rest.1));
        assert(s.subrange(i, rest.0) =~= s.subrange(i, e) + s.subrange(e, rest.0));
    }
}

/// The text of an identifier is never empty: it holds at least a tag of two
/// characters, a dot and a digit.
pub proof fn lemma_id_text_len(parts: Seq<PartView>)
    requires
        is_id(parts),
    ensures
        id_text(parts).len() >= 4,
        id_text(parts).len() >= part_text(parts[0]).len(),
        part_text(parts[0]).len() >= 4,
    decreases parts.len(),
{
    lemma_decimal_is_numeral(parts[0].1 as nat);
    assert(is_part(parts[0]));
    if parts.len() > 1 {
        let rest = parts.drop_first();
        assert(is_id(rest)) by {
            assert forall|k: int| 0 <= k < rest.len() implies is_part(#[trigger] rest[k]) by {
                assert(rest[k] == parts[k + 1]);
            }
        }
        lemma_id_text_len(rest);
    }
}

pub proof fn lemma_scan_more_complete(s: Seq<char>, i: int, parts: Seq<PartView>)
    requires
        is_id(parts),
        0 <= i,
        i + 2 + id_text(parts).len() <= s.len(),
        s.subrange(i, i + 2 + id_text(parts).len()) == seq![':', ':'] + id_text(parts),
        ends_id(s, i + 2 + id_text(parts).len()),
    ensures
        scan_more(s, i) == (i + 2 + id_text(parts).len(), parts),
    decreases parts.len(),
{
    let text = id_text(parts);
    let whole = seq![':', ':'] + text;
    let p = parts[0];
    let pt = part_text(p);
    lemma_id_text_len(parts);
    assert(is_part(p));
    assert forall|k: int| 0 <= k < whole.len() implies s[i + k] == #[trigger] whole[k] by {
        assert(s.subrange(i, i + 2 + text.len())[k] == s[i + k]);
    }
    assert(s[i] == whole[0]);
    assert(s[i + 1] == whole[1]);
    let e = i + 2 + pt.len();
    if parts.len() == 1 {
        assert(text == pt);
        assert(s.subrange(i + 2, e) =~= pt) by {
            assert forall|k: int| 0 <= k < pt.len() implies s.subrange(i + 2, e)[k] == pt[k] by {
                assert(s[i + 2 + k] == whole[2 + k]);
            }
        }
        lemma_scan_part_complete(s, i + 2, p);
        assert(scan_more(s, e).1 =~= Seq::<PartView>::empty() && scan_more(s, e).0 == e);
        assert(seq![p] + Seq::<PartView>::empty() =~= parts);
    } else {
        let rest = parts.drop_first();
        assert(is_id(rest)) by {
            assert forall|k: int| 0 <= k < rest.len() implies is_part(#[trigger] rest[k]) by {
                assert(rest[k] == parts[k + 1]);
            }
        }
        let rt = id_text(rest);
        assert(text == pt + seq![':', ':'] + rt);
        assert(s.subrange(i + 2, e) =~= pt) by {
            assert forall|k: int| 0 <= k < pt.len() implies s.subrange(i + 2, e)[k] == pt[k] by {
                assert(s[i + 2 + k] == whole[2 + k]);
                assert(whole[2 + k] == text[k]);
            }
        }
        assert(s[e] == ':') by {
            assert(s[e] == whole[2 + pt.len() as int]);
            assert(whole[2 + pt.len() as int] == text[pt.len() as int]);
        }
        lemma_scan_part_complete(s, i + 2, p);
        assert(s.subrange(e, e + 2 + rt.len()) =~= seq![':', ':'] + rt) by {
            assert forall|k: int| 0 <= k < 2 + rt.len() implies s.subrange(e, e + 2 + rt.len())[k]
                == (seq![':', ':'] + rt)[k] by {
                assert(s[e + k] == whole[2 + pt.len() + k]);
                assert(whole[2 + pt.len() + k] == text[pt.len() + k]);
            }
        }
        lemma_scan_more_complete(s, e, rest);
        assert(seq![p] + rest =~= parts);
    }
}

/// The canonical text of an identifier, wherever it stands in a text and is
/// followed by neither a digit nor a colon, is read by the scanner as that
/// identifier.
pub proof fn lemma_scan_id_complete(s: Seq<char>, i: int, parts: Seq<PartView>)
    requires
        is_id(parts),
        0 <= i,
        i + id_text(parts).len() <= s.len(),
        s.subrange(i, i + id_text(parts).len()) == id_text(parts),
        ends_id(s, i + id_text(parts).len()),
    ensures
        scan_id(s, i) == Some((i + id_text(parts).len(), parts)),
{
    let text = id_text(parts);
    let p = parts[0];
    let pt = part_text(p);
    lemma_id_text_len(parts);
    assert(is_part(p));
    assert forall|k: int| 0 <= k < text.len() implies s[i + k] == #[trigger] text[k] by {
        assert(s.subrange(i, i + text.len())[k] == s[i + k]);
    }
    let e = i + pt.len();
    if parts.len() == 1 {
        assert(text == pt);
        lemma_scan_part_complete(s, i, p);
        assert(scan_more(s, e).1 =~= Seq::<PartView>::empty() && scan_more(s, e).0 == e);
        assert(seq![p] + Seq::<PartView>::empty() =~= parts);
    } else {
        let rest = parts.drop_first();
        assert(is_id(rest)) by {
            assert forall|k: int| 0 <= k < rest.len() implies is_part(#[trigger] rest[k]) by {
                assert(rest[k] == parts[k + 1]);
            }
        }
        let rt = id_text(rest);
        assert(text == pt + seq![':', ':'] + rt);
        assert(s.subrange(i, e) =~= pt) by {
            assert forall|k: int| 0 <= k < pt.len() implies s.subrange(i, e)[k] == pt[k] by {
                assert(s[i + k] == text[k]);
            }
        }
        assert(s[e] == ':') by {
            assert(s[e] == text[pt.len() as int]);
        }
        lemma_scan_part_complete(s, i, p);
        assert(s.subrange(e, e + 2 + rt.len()) =~= seq![':', ':'] + rt) by {
            assert forall|k: int| 0 <= k < 2 + rt.len() implies s.subrange(e, e + 2 + rt.len())[k]
                == (seq![':', ':'] + rt)[k] by {
                assert(s[e + k] == text[pt.len() + k]);
            }
        }
        lemma_scan_more_complete(s, e, rest);
        assert(seq![p] + rest =~= parts);
    }
}

/// A text is the canonical text of an identifier exactly when the scanner
/// reads all of it.
pub proof fn lemma_id_text_iff_scanned(s: Seq<char>)
    ensures
        is_id_text(s) <==> (scan_id(s, 0) is Some && scan_id(s, 0).unwrap().0 == s.len()),
{
    if is_id_text(s) {
        let parts = choose|parts: Seq<PartView>| is_id(parts) && id_text(parts) == s;
        assert(s.subrange(0, s.len() as int) =~= s);
        lemma_scan_id_complete(s, 0, parts);
    }
    if scan_id(s, 0) is Some && scan_id(s, 0).unwrap().0 == s.len() {
        lemma_scan_id_sound(s, 0);
        assert(s.subrange(0, s.len() as int) =~= s);
    }
}

/// Two identifiers with the same canonical text are the same identifier.
pub proof fn lemma_id_text_injective(a: Seq<PartView>, b: Seq<PartView>)
    requires
        is_id(a),
        is_id(b),
        id_text(a) == id_text(b),
    ensures
        a == b,
{
    let s = id_text(a);
    assert(s.subrange(0, s.len() as int) =~= s);
    lemma_scan_id_complete(s, 0, a);
    lemma_scan_id_complete(s, 0, b);
}

/// Round trip, from text: a text that the grammar accepts is parsed, and
/// the canonical text of what was parsed is that text again.
pub proof fn lemma_render_of_parse(s: Seq<char>)
    requires
        is_id_text(s),
    ensures
        parsed_id(s) is Some,
        is_id(parsed_id(s).unwrap()),
        id_text(parsed_id(s).unwrap()) == s,
{
    lemma_id_text_iff_scanned(s);
    lemma_scan_id_sound(s, 0);
    assert(s.subrange(0, s.len() as int) =~= s);
}

/// Round trip, from identifier: the canonical text of an identifier is
/// parsed as that identifier.
pub proof fn lemma_parse_of_render(parts: Seq<PartView>)
    requires
        is_id(parts),
    ensures
        parsed_id(id_text(parts)) == Some(parts),
{
    let s = id_text(parts);
    assert(s.subrange(0, s.len() as int) =~= s);
    lemma_scan_id_complete(s, 0, parts);
}

/// Only the texts that the grammar accepts are parsed.
pub proof fn lemma_parsed_iff_accepted(s: Seq<char>)
    ensures
        parsed_id(s) is Some <==> is_id_text(s),
{
    lemma_id_text_iff_scanned(s);
}

} // verus!
