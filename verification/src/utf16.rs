use vstd::prelude::*;
use vstd::std_specs::iter::IteratorSpec;

verus! {

/// The first half of a surrogate pair.
pub open spec fn is_high_surrogate(u: u16) -> bool {
    0xD800 <= u <= 0xDBFF
}

/// The second half of a surrogate pair.
pub open spec fn is_low_surrogate(u: u16) -> bool {
    0xDC00 <= u <= 0xDFFF
}

/// The character that stands for ill-formed input.
pub open spec fn replacement() -> char {
    '\u{FFFD}'
}

/// The UTF-16 code units of one character: one unit below U+10000, a
/// surrogate pair from there on.
pub open spec fn char_units(c: char) -> Seq<u16> {
    let v = c as int;
    if v < 0x10000 {
        seq![v as u16]
    } else {
        seq![(0xD800 + (v - 0x10000) / 0x400) as u16, (0xDC00 + (v - 0x10000) % 0x400) as u16]
    }
}

/// The character that a surrogate pair stands for.
pub open spec fn pair_char(high: u16, low: u16) -> char {
    (0x10000 + (high - 0xD800) * 0x400 + (low - 0xDC00)) as char
}

/// The UTF-16 code units of a text.
pub open spec fn utf16_encode(text: Seq<char>) -> Seq<u16>
    decreases text.len(),
{
    if text.len() == 0 {
        Seq::empty()
    } else {
        char_units(text[0]) + utf16_encode(text.skip(1))
    }
}

/// The text that a sequence of UTF-16 code units holds, with the replacement
/// character for every surrogate that has no partner.
pub open spec fn utf16_decode_lossy(units: Seq<u16>) -> Seq<char>
    decreases units.len(),
{
    if units.len() == 0 {
        Seq::empty()
    } else if !is_high_surrogate(units[0]) && !is_low_surrogate(units[0]) {
        seq![units[0] as char] + utf16_decode_lossy(units.skip(1))
    } else if is_high_surrogate(units[0]) && units.len() >= 2 && is_low_surrogate(units[1]) {
        seq![pair_char(units[0], units[1])] + utf16_decode_lossy(units.skip(2))
    } else {
        seq![replacement()] + utf16_decode_lossy(units.skip(1))
    }
}

/// Whether the unit at `i` is a surrogate without its partner: a high one
/// that no low one follows, or a low one that no high one precedes.
pub open spec fn unpaired_at(units: Seq<u16>, i: int) -> bool {
    &&& 0 <= i < units.len()
    &&& {
        ||| is_high_surrogate(units[i]) && !(i + 1 < units.len() && is_low_surrogate(units[i + 1]))
        ||| is_low_surrogate(units[i]) && !(i > 0 && is_high_surrogate(units[i - 1]))
    }
}

/// The UTF-16 code units of a text, in order.
pub fn utf16_units(text: &str) -> (r: Vec<u16>)
    ensures
        r@ == utf16_encode(text@),
{
    broadcast use vstd::string::group_string_axioms;

    let mut chars = text.chars();
    let mut units: Vec<u16> = Vec::new();
    assert(units@ + utf16_encode(chars.remaining()) =~= utf16_encode(text@));
    loop
        invariant
            units@ + utf16_encode(chars.remaining()) == utf16_encode(text@),
            chars.decrease() is Some,
        decreases chars.decrease()->0,
    {
        let ghost before = chars.remaining();
        let ghost done = units@;
        match chars.next() {
            None => {
                assert(utf16_encode(before) =~= Seq::<u16>::empty());
                assert(units@ + Seq::<u16>::empty() =~= units@);
                return units;
            },
            Some(c) => {
                proof {
                    lemma_char_units_shape(c);
                }
                let v: u32 = c as u32;
                if v < 0x10000 {
                    units.push(v as u16);
                } else {
                    let w: u32 = v - 0x10000;
                    let high: u32 = 0xD800 + w / 0x400;
                    let low: u32 = 0xDC00 + w % 0x400;
                    assert(high <= 0xDBFF && low <= 0xDFFF);
                    units.push(high as u16);
                    units.push(low as u16);
                }
                proof {
                    assert(before.len() > 0);
                    assert(c == before[0]);
                    assert(chars.remaining() == before.skip(1));
                    assert(units@ =~= done + char_units(c));
                    assert(units@ + utf16_encode(chars.remaining()) =~= done + utf16_encode(
                        before,
                    ));
                }
            },
        }
    }
}

/// The number of UTF-16 code units of a text, counted without writing them
/// down; `None` where the count does not fit a `usize`.
pub fn utf16_unit_count(text: &str) -> (r: Option<usize>)
    ensures
        r == (if utf16_encode(text@).len() <= usize::MAX {
            Some(utf16_encode(text@).len() as usize)
        } else {
            None
        }),
{
    broadcast use vstd::string::group_string_axioms;

    let mut chars = text.chars();
    let mut count: usize = 0;
    loop
        invariant
            count + utf16_encode(chars.remaining()).len() == utf16_encode(text@).len(),
            chars.decrease() is Some,
        decreases chars.decrease()->0,
    {
        let ghost before = chars.remaining();
        match chars.next() {
            None => {
                assert(utf16_encode(before) =~= Seq::<u16>::empty());
                return Some(count);
            },
            Some(c) => {
                proof {
                    lemma_char_units_shape(c);
                    assert(c == before[0]);
                    assert(chars.remaining() == before.skip(1));
                }
                let width: usize = if (c as u32) < 0x10000 {
                    1
                } else {
                    2
                };
                count = match count.checked_add(width) {
                    Some(n) => n,
                    None => { return None; },
                };
            },
        }
    }
}

/// `char::from_u32`: the character with the number `v`, where `v` is the
/// number of one: up to U+10FFFF and no surrogate.
#[verifier::external_body]
pub(crate) fn char_from_u32(v: u32) -> (r: Option<char>)
    ensures
        r == (if v <= 0xD7FF || 0xE000 <= v <= 0x10FFFF {
            Some(v as char)
        } else {
            None
        }),
{
    char::from_u32(v)
}

/// `String::push`: the text with `c` behind its last character.
#[verifier::external_body]
pub(crate) fn push_char(text: &mut String, c: char)
    ensures
        final(text)@ == old(text)@.push(c),
{
    text.push(c)
}

/// The text that UTF-16 code units hold, with U+FFFD in place of every
/// surrogate without a partner.
pub fn utf16_text_lossy(units: &[u16]) -> (r: String)
    ensures
        r@ == utf16_decode_lossy(units@),
{
    let mut text = String::new();
    let mut i: usize = 0;
    assert(units@.skip(0) =~= units@);
    assert(text@ + utf16_decode_lossy(units@) =~= utf16_decode_lossy(units@));
    while i < units.len()
        invariant
            i <= units.len(),
            text@ + utf16_decode_lossy(units@.skip(i as int)) == utf16_decode_lossy(units@),
        decreases units.len() - i,
    {
        let ghost done = text@;
        let ghost rest = units@.skip(i as int);
        let unit = units[i];
        assert(rest[0] == unit);
        if unit < 0xD800 || unit > 0xDFFF {
            let c = match char_from_u32(unit as u32) {
                Some(c) => c,
                None => '\u{FFFD}',
            };
            push_char(&mut text, c);
            i = i + 1;
            proof {
                assert(rest.skip(1) =~= units@.skip(i as int));
                assert(text@ + utf16_decode_lossy(units@.skip(i as int)) =~= done
                    + utf16_decode_lossy(rest));
            }
        } else if unit <= 0xDBFF && i + 1 < units.len() && 0xDC00 <= units[i + 1] && units[i + 1]
            <= 0xDFFF {
            let low = units[i + 1];
            assert(rest[1] == low);
            let v: u32 = 0x10000 + (unit as u32 - 0xD800) * 0x400 + (low as u32 - 0xDC00);
            let c = match char_from_u32(v) {
                Some(c) => c,
                None => '\u{FFFD}',
            };
            push_char(&mut text, c);
            i = i + 2;
            proof {
                assert(rest.skip(2) =~= units@.skip(i as int));
                assert(text@ + utf16_decode_lossy(units@.skip(i as int)) =~= done
                    + utf16_decode_lossy(rest));
            }
        } else {
            push_char(&mut text, '\u{FFFD}');
            i = i + 1;
            proof {
                assert(rest.skip(1) =~= units@.skip(i as int));
                assert(text@ + utf16_decode_lossy(units@.skip(i as int)) =~= done
                    + utf16_decode_lossy(rest));
            }
        }
    }
    proof {
        assert(units@.skip(i as int) =~= Seq::<u16>::empty());
        assert(text@ + Seq::<char>::empty() =~= text@);
    }
    text
}

/// The units of one character are either one unit that is no surrogate
/// and has the character's number, or a surrogate pair that stands for the
/// character.
pub proof fn lemma_char_units_shape(c: char)
    ensures
        0 <= (c as int) <= 0x10FFFF,
        (c as int) < 0x10000 ==> {
            &&& char_units(c).len() == 1
            &&& !is_high_surrogate(char_units(c)[0])
            &&& !is_low_surrogate(char_units(c)[0])
            &&& char_units(c)[0] as char == c
        },
        (c as int) >= 0x10000 ==> {
            &&& char_units(c).len() == 2
            &&& is_high_surrogate(char_units(c)[0])
            &&& is_low_surrogate(char_units(c)[1])
            &&& pair_char(char_units(c)[0], char_units(c)[1]) == c
        },
{
    let v = c as int;
    if v >= 0x10000 {
        let w = v - 0x10000;
        assert(0 <= w < 0x100000);
        assert(0 <= w / 0x400 < 0x400);
        assert(0 <= w % 0x400 < 0x400);
        assert(w == (w / 0x400) * 0x400 + w % 0x400);
        let high = (0xD800 + w / 0x400) as u16;
        let low = (0xDC00 + w % 0x400) as u16;
        assert(high == 0xD800 + w / 0x400);
        assert(low == 0xDC00 + w % 0x400);
        assert(char_units(c) =~= seq![high, low]);
        assert(0x10000 + (high - 0xD800) * 0x400 + (low - 0xDC00) == v);
    } else {
        assert(char_units(c) =~= seq![v as u16]);
    }
}

/// The units of one character, whatever follows them, are read as that
/// character.
pub proof fn lemma_decode_char_units(c: char, rest: Seq<u16>)
    ensures
        utf16_decode_lossy(char_units(c) + rest) == seq![c] + utf16_decode_lossy(rest),
{
    lemma_char_units_shape(c);
    let units = char_units(c) + rest;
    if (c as int) < 0x10000 {
        assert(units[0] == char_units(c)[0]);
        assert(units.skip(1) =~= rest);
    } else {
        assert(units[0] == char_units(c)[0]);
        assert(units[1] == char_units(c)[1]);
        assert(units.skip(2) =~= rest);
    }
}

/// Every text is read back from its own UTF-16 code units: encoding loses
/// nothing.
pub proof fn lemma_utf16_round_trip(text: Seq<char>)
    ensures
        utf16_decode_lossy(utf16_encode(text)) == text,
    decreases text.len(),
{
    if text.len() > 0 {
        lemma_utf16_round_trip(text.skip(1));
        lemma_decode_char_units(text[0], utf16_encode(text.skip(1)));
        assert(seq![text[0]] + text.skip(1) =~= text);
    }
}

/// Code units that hold a surrogate without its partner are read as a text
/// that holds the replacement character.
pub proof fn lemma_unpaired_gives_replacement(units: Seq<u16>, i: int)
    requires
        unpaired_at(units, i),
    ensures
        utf16_decode_lossy(units).contains(replacement()),
    decreases units.len(),
{
    let u0 = units[0];
    if !is_high_surrogate(u0) && !is_low_surrogate(u0) {
        let rest = units.skip(1);
        assert(unpaired_at(rest, i - 1));
        lemma_unpaired_gives_replacement(rest, i - 1);
        let tail = utf16_decode_lossy(rest);
        let k = choose|k: int| 0 <= k < tail.len() && tail[k] == replacement();
        assert((seq![u0 as char] + tail)[k + 1] == replacement());
    } else if is_high_surrogate(u0) && units.len() >= 2 && is_low_surrogate(units[1]) {
        let rest = units.skip(2);
        assert(unpaired_at(rest, i - 2));
        lemma_unpaired_gives_replacement(rest, i - 2);
        let tail = utf16_decode_lossy(rest);
        let k = choose|k: int| 0 <= k < tail.len() && tail[k] == replacement();
        assert((seq![pair_char(u0, units[1])] + tail)[k + 1] == replacement());
    } else {
        assert((seq![replacement()] + utf16_decode_lossy(units.skip(1)))[0] == replacement());
    }
}

} // verus!
