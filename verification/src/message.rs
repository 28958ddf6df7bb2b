//! Payload grammar: `<client-id>|<body>`, where the body is either the
//! textual rendering `[s, d1, d2]` of a three-byte MIDI event or an opaque
//! chat string passed through unchanged.

use vstd::prelude::*;

use crate::text::{
    all_digits, digit_val, digits_val, is_digit, is_digit_char, lemma_digits_val_prefix_le, lemma_digits_val_step, lemma_leading_ws_unique,
    lemma_no_char_concat, lemma_scan_len_characterization, lemma_scan_len_concat,
    lemma_scan_len_unique, lemma_trailing_ws_unique, no_char, scan_len, trim, trimmed, find_char,
};

verus! {

/// Separator between the client identifier and the body of a payload.
pub const MSG_SEPARATOR: char = '|';

/// Characters of `s` before the first separator (all of `s` if none occurs):
/// the client-id prefix of a well-formed payload.
pub open spec fn msg_prefix(s: Seq<char>) -> Seq<char> {
    s.take(scan_len(s, MSG_SEPARATOR))
}

/// The segment between the first separator and the next one or the end —
/// the body of a well-formed `<id>|<body>` payload; all of `s` when there
/// is no separator at all.
pub open spec fn second_segment(s: Seq<char>) -> Seq<char> {
    if scan_len(s, MSG_SEPARATOR) == s.len() {
        s
    } else {
        let rest = s.skip(scan_len(s, MSG_SEPARATOR) + 1);
        rest.take(scan_len(rest, MSG_SEPARATOR))
    }
}

/// The payload composed from a client identifier and a body.
pub open spec fn composed(id: Seq<char>, body: Seq<char>) -> Seq<char> {
    id + seq![MSG_SEPARATOR] + body
}

/// The human-readable part of a payload: its body if it has the
/// `<id>|<body>` shape, the whole payload otherwise.
pub fn get_msg(msg: &str) -> (r: &str)
    ensures
        r@ == second_segment(msg@),
{
    let n = msg.unicode_len();
    let a = find_char(msg, 0, MSG_SEPARATOR);
    proof {
        assert(msg@.skip(0) =~= msg@);
    }
    if a == n {
        return msg;
    }
    let b = find_char(msg, a + 1, MSG_SEPARATOR);
    let r = msg.substring_char(a + 1, b);
    proof {
        let rest = msg@.skip(a + 1);
        assert(rest.take(scan_len(rest, MSG_SEPARATOR)) =~= msg@.subrange(a + 1, b as int));
    }
    r
}

/// Build the payload `<id>|<body>`.
pub fn compose_message(id: &str, body: &str) -> (r: String)
    ensures
        r@ == composed(id@, body@),
{
    let mut r = String::from_str(id);
    r.append("|");
    r.append(body);
    proof {
        reveal_strlit("|");
        assert(r@ =~= composed(id@, body@));
    }
    r
}

/// Splitting a composed payload gives back its id and its body, provided
/// the id is free of the separator (as every client identifier is).
pub proof fn lemma_compose_split(id: Seq<char>, body: Seq<char>)
    requires
        forall|i: int| 0 <= i < id.len() ==> id[i] != MSG_SEPARATOR,
    ensures
        msg_prefix(composed(id, body)) == id,
        second_segment(composed(id, body)) == body.take(scan_len(body, MSG_SEPARATOR)),
        (forall|i: int| 0 <= i < body.len() ==> body[i] != MSG_SEPARATOR) ==> second_segment(
            composed(id, body),
        ) == body,
{
    let s = composed(id, body);
    lemma_scan_len_concat(id, seq![MSG_SEPARATOR] + body, MSG_SEPARATOR);
    assert(s =~= id + (seq![MSG_SEPARATOR] + body));
    assert(scan_len(seq![MSG_SEPARATOR] + body, MSG_SEPARATOR) == 0);
    assert(scan_len(s, MSG_SEPARATOR) == id.len());
    assert(msg_prefix(s) =~= id);
    lemma_scan_len_characterization(body, MSG_SEPARATOR);
    assert(s.skip(id.len() as int + 1) =~= body);
    if forall|i: int| 0 <= i < body.len() ==> body[i] != MSG_SEPARATOR {
        lemma_scan_len_unique(body, MSG_SEPARATOR, body.len() as int);
        assert(body.take(body.len() as int) =~= body);
    }
}

/// The character for decimal digit `d`.
pub open spec fn digit_char(d: int) -> char {
    ((48 + d) as u8) as char
}

/// Decimal rendering of `n`: most significant digit first, no leading
/// zeros, a single `0` for zero.
pub open spec fn decimal_rep(n: int) -> Seq<char>
    decreases n,
{
    if n < 0 {
        Seq::empty()
    } else if n < 10 {
        seq![digit_char(n)]
    } else {
        decimal_rep(n / 10).push(digit_char(n % 10))
    }
}

/// The decimal rendering of a byte value consists of digits and reads back
/// to the same value.
pub proof fn lemma_decimal_rep_digits(n: int)
    requires
        0 <= n,
    ensures
        1 <= decimal_rep(n).len(),
        forall|i: int| 0 <= i < decimal_rep(n).len() ==> is_digit(#[trigger] decimal_rep(n)[i]),
        digits_val(decimal_rep(n)) == n,
    decreases n,
{
    if n < 10 {
        assert(digit_char(n) as u32 == 48 + n);
        assert(is_digit(digit_char(n)));
        let rep = decimal_rep(n);
        assert(rep.drop_last() =~= Seq::<char>::empty());
        assert(rep.last() == digit_char(n));
        assert(digits_val(rep) == digits_val(Seq::<char>::empty()) * 10 + digit_val(
            digit_char(n),
        ));
    } else {
        lemma_decimal_rep_digits(n / 10);
        let rep = decimal_rep(n);
        assert(rep.drop_last() =~= decimal_rep(n / 10));
        assert(rep.last() == digit_char(n % 10));
        assert(digit_val(digit_char(n % 10)) == n % 10);
        assert forall|i: int| 0 <= i < rep.len() implies is_digit(#[trigger] rep[i]) by {
            if i < rep.len() - 1 {
                assert(is_digit(decimal_rep(n / 10)[i]));
            }
        }
    }
}

/// `[s, d1, d2]` — the textual rendering of a three-byte MIDI event, with
/// each byte written in decimal.
pub open spec fn triple_body(s: u8, d1: u8, d2: u8) -> Seq<char> {
    seq!['['] + decimal_rep(s as int) + seq![',', ' '] + decimal_rep(d1 as int) + seq![',', ' ']
        + decimal_rep(d2 as int) + seq![']']
}

/// Append the single digit `d` to `r`.
fn push_digit(r: &mut String, d: u8)
    requires
        d <= 9,
    ensures
        final(r)@ == old(r)@ + seq![digit_char(d as int)],
{
    if d == 0 {
        r.append("0");
        proof {
            reveal_strlit("0");
            assert(final(r)@ =~= old(r)@ + seq![digit_char(d as int)]);
        }
    } else if d == 1 {
        r.append("1");
        proof {
            reveal_strlit("1");
            assert(final(r)@ =~= old(r)@ + seq![digit_char(d as int)]);
        }
    } else if d == 2 {
        r.append("2");
        proof {
            reveal_strlit("2");
            assert(final(r)@ =~= old(r)@ + seq![digit_char(d as int)]);
        }
    } else if d == 3 {
        r.append("3");
        proof {
            reveal_strlit("3");
            assert(final(r)@ =~= old(r)@ + seq![digit_char(d as int)]);
        }
    } else if d == 4 {
        r.append("4");
        proof {
            reveal_strlit("4");
            assert(final(r)@ =~= old(r)@ + seq![digit_char(d as int)]);
        }
    } else if d == 5 {
        r.append("5");
        proof {
            reveal_strlit("5");
            assert(final(r)@ =~= old(r)@ + seq![digit_char(d as int)]);
        }
    } else if d == 6 {
        r.append("6");
        proof {
            reveal_strlit("6");
            assert(final(r)@ =~= old(r)@ + seq![digit_char(d as int)]);
        }
    } else if d == 7 {
        r.append("7");
        proof {
            reveal_strlit("7");
            assert(final(r)@ =~= old(r)@ + seq![digit_char(d as int)]);
        }
    } else if d == 8 {
        r.append("8");
        proof {
            reveal_strlit("8");
            assert(final(r)@ =~= old(r)@ + seq![digit_char(d as int)]);
        }
    } else {
        r.append("9");
        proof {
            reveal_strlit("9");
            assert(final(r)@ =~= old(r)@ + seq![digit_char(d as int)]);
        }
    }
}

/// Append the decimal rendering of `n` to `r`.
fn push_decimal(r: &mut String, n: u8)
    ensures
        final(r)@ == old(r)@ + decimal_rep(n as int),
{
    proof {
        assert((n as int / 10) / 10 == n as int / 100) by (nonlinear_arith);
        reveal_with_fuel(decimal_rep, 4);
    }
    if n >= 100 {
        push_digit(r, n / 100);
        push_digit(r, (n / 10) % 10);
        push_digit(r, n % 10);
        proof {
            reveal_with_fuel(decimal_rep, 4);
            assert(final(r)@ =~= old(r)@ + decimal_rep(n as int));
        }
    } else if n >= 10 {
        push_digit(r, n / 10);
        push_digit(r, n % 10);
        proof {
            reveal_with_fuel(decimal_rep, 4);
            assert(final(r)@ =~= old(r)@ + decimal_rep(n as int));
        }
    } else {
        push_digit(r, n);
        proof {
            assert(final(r)@ =~= old(r)@ + decimal_rep(n as int));
        }
    }
}

/// The part of a body the triple parser examines: the characters strictly
/// between the first `[` and the next `[` or the end, cut at the first `]`.
/// `None` when the body has no `[` at all.
pub open spec fn bracket_region(s: Seq<char>) -> Option<Seq<char>> {
    if scan_len(s, '[') == s.len() {
        Option::None
    } else {
        let rest = s.skip(scan_len(s, '[') + 1);
        let to_next = rest.take(scan_len(rest, '['));
        Option::Some(to_next.take(scan_len(to_next, ']')))
    }
}

/// The comma-separated segment of `r` at position `i` (empty when `r` has
/// fewer segments).
pub open spec fn seg(r: Seq<char>, i: int) -> Seq<char>
    decreases i,
{
    if i <= 0 {
        r.take(scan_len(r, ','))
    } else if scan_len(r, ',') == r.len() {
        Seq::empty()
    } else {
        seg(r.skip(scan_len(r, ',') + 1), i - 1)
    }
}

/// `r` splits into at least `i + 1` comma-separated segments.
pub open spec fn has_seg(r: Seq<char>, i: int) -> bool
    decreases i,
{
    if i <= 0 {
        true
    } else {
        scan_len(r, ',') < r.len() && has_seg(r.skip(scan_len(r, ',') + 1), i - 1)
    }
}

/// Decimal-parse an unsigned 8-bit integer, surrounding whitespace trimmed:
/// the trimmed text must be one or more digits whose value is at most 255.
pub open spec fn parse_u8_spec(s: Seq<char>) -> Option<u8> {
    let t = trimmed(s);
    if all_digits(t) && digits_val(t) <= 255 {
        Option::Some(digits_val(t) as u8)
    } else {
        Option::None
    }
}

/// The MIDI triple a body encodes, if it encodes one: the first three
/// comma-separated segments of its bracketed region, each an 8-bit decimal.
pub open spec fn parsed_triple(body: Seq<char>) -> Option<(u8, u8, u8)> {
    match bracket_region(body) {
        Option::None => Option::None,
        Option::Some(r) => {
            if has_seg(r, 2) {
                match (parse_u8_spec(seg(r, 0)), parse_u8_spec(seg(r, 1)), parse_u8_spec(
                    seg(r, 2),
                )) {
                    (Option::Some(a), Option::Some(b), Option::Some(c)) => Option::Some((a, b, c)),
                    _ => Option::None,
                }
            } else {
                Option::None
            }
        },
    }
}

/// Decimal-parse an unsigned 8-bit integer from `s`, trimming surrounding
/// whitespace.
pub fn parse_u8_str(s: &str) -> (r: Option<u8>)
    ensures
        r == parse_u8_spec(s@),
{
    let t = trim(s);
    let n = t.unicode_len();
    if n == 0 {
        return None;
    }
    let mut val: u16 = 0;
    let mut i: usize = 0;
    while i < n
        invariant
            i <= n,
            n == t@.len(),
            t@ == trimmed(s@),
            forall|j: int| 0 <= j < i ==> is_digit(t@[j]),
            val == digits_val(t@.take(i as int)),
            val <= 255,
        decreases n - i,
    {
        let c = t.get_char(i);
        if !is_digit_char(c) {
            return None;
        }
        let d: u32 = c as u32 - 48;
        let nv: u32 = val as u32 * 10 + d;
        proof {
            lemma_digits_val_step(t@, i as int);
        }
        if nv > 255 {
            proof {
                if all_digits(t@) {
                    lemma_digits_val_prefix_le(t@, i as int + 1);
                }
            }
            return None;
        }
        val = nv as u16;
        i = i + 1;
    }
    proof {
        assert(t@.take(n as int) =~= t@);
    }
    Some(val as u8)
}

/// Parse a body of the shape `[s, d1, d2]` into its MIDI triple; `None`
/// for any body of another shape (a chat string, for example).
#[verifier::rlimit(50)]
pub fn parse_midi_body(body: &str) -> (r: Option<(u8, u8, u8)>)
    ensures
        r == parsed_triple(body@),
{
    let n = body.unicode_len();
    let a = find_char(body, 0, '[');
    proof {
        assert(body@.skip(0) =~= body@);
    }
    if a == n {
        return None;
    }
    let b = find_char(body, a + 1, '[');
    let between = body.substring_char(a + 1, b);
    proof {
        let rest = body@.skip(a + 1);
        assert(rest.take(scan_len(rest, '[')) =~= body@.subrange(a + 1, b as int));
    }
    let e = find_char(between, 0, ']');
    let region = between.substring_char(0, e);
    proof {
        assert(between@.skip(0) =~= between@);
        assert(between@.take(scan_len(between@, ']')) =~= between@.subrange(0, e as int));
        assert(region@ == bracket_region(body@)->Some_0);
    }
    let rn = region.unicode_len();
    let p0 = find_char(region, 0, ',');
    proof {
        assert(region@.skip(0) =~= region@);
        assert(region@.take(scan_len(region@, ',')) =~= region@.subrange(0, p0 as int));
    }
    let s0 = region.substring_char(0, p0);
    if p0 == rn {
        return None;
    }
    let rest1 = region.substring_char(p0 + 1, rn);
    proof {
        assert(rest1@ =~= region@.skip(scan_len(region@, ',') + 1));
    }
    let r1n = rest1.unicode_len();
    let p1 = find_char(rest1, 0, ',');
    proof {
        assert(rest1@.skip(0) =~= rest1@);
        assert(rest1@.take(scan_len(rest1@, ',')) =~= rest1@.subrange(0, p1 as int));
        assert(seg(region@, 1) == seg(rest1@, 0));
        assert(seg(rest1@, 0) == rest1@.take(scan_len(rest1@, ',')));
        assert(has_seg(region@, 2) == has_seg(rest1@, 1));
    }
    let s1 = rest1.substring_char(0, p1);
    if p1 == r1n {
        proof {
            assert(!has_seg(rest1@, 1));
        }
        return None;
    }
    let rest2 = rest1.substring_char(p1 + 1, r1n);
    proof {
        assert(rest2@ =~= rest1@.skip(scan_len(rest1@, ',') + 1));
    }
    let p2 = find_char(rest2, 0, ',');
    proof {
        assert(rest2@.skip(0) =~= rest2@);
        assert(rest2@.take(scan_len(rest2@, ',')) =~= rest2@.subrange(0, p2 as int));
        assert(seg(region@, 2) == seg(rest1@, 1));
        assert(seg(rest1@, 1) == seg(rest2@, 0));
        assert(seg(rest2@, 0) == rest2@.take(scan_len(rest2@, ',')));
        assert(has_seg(region@, 2) == has_seg(rest1@, 1));
        assert(has_seg(rest1@, 1) == has_seg(rest2@, 0));
    }
    let s2 = rest2.substring_char(0, p2);
    let v0 = parse_u8_str(s0);
    let v1 = parse_u8_str(s1);
    let v2 = parse_u8_str(s2);
    match (v0, v1, v2) {
        (Some(x), Some(y), Some(z)) => Some((x, y, z)),
        _ => None,
    }
}

/// Parse a body already known to carry a MIDI triple.
///
/// Callers that cannot know this beforehand use [`parse_midi_body`], which
/// rejects bodies of any other shape instead of requiring them away.
pub fn parse_message(msg: &str) -> (r: (u8, u8, u8))
    requires
        parsed_triple(msg@) is Some,
    ensures
        Option::Some(r) == parsed_triple(msg@),
{
    let parsed = parse_midi_body(msg);
    parsed.unwrap()
}

/// Render a three-byte MIDI event as `[s, d1, d2]`.
pub fn render_midi_body(s: u8, d1: u8, d2: u8) -> (r: String)
    ensures
        r@ == triple_body(s, d1, d2),
{
    let mut r = String::new();
    r.append("[");
    push_decimal(&mut r, s);
    r.append(", ");
    push_decimal(&mut r, d1);
    r.append(", ");
    push_decimal(&mut r, d2);
    r.append("]");
    proof {
        reveal_strlit("[");
        reveal_strlit(", ");
        reveal_strlit("]");
        assert(r@ =~= triple_body(s, d1, d2));
    }
    r
}

/// Digit sequences carry no whitespace, so trimming leaves them unchanged.
pub proof fn lemma_trimmed_digits(s: Seq<char>)
    requires
        all_digits(s),
    ensures
        trimmed(s) == s,
{
    lemma_leading_ws_unique(s, 0);
    lemma_trailing_ws_unique(s, 0);
    assert(s.subrange(0, s.len() as int) =~= s);
}

/// A single leading space before digits is all that trimming removes.
proof fn lemma_trimmed_space_digits(d: Seq<char>)
    requires
        all_digits(d),
    ensures
        trimmed(seq![' '] + d) == d,
{
    let s = seq![' '] + d;
    assert(is_digit(d[0]));
    lemma_leading_ws_unique(s, 1);
    assert(is_digit(d[d.len() - 1]));
    lemma_trailing_ws_unique(s, 0);
    assert(s.subrange(1, s.len() as int) =~= d);
}

/// Rendering a MIDI event and parsing the rendered body gives the event
/// back: the triple grammar is the inverse of the triple renderer.
#[verifier::rlimit(50)]
pub proof fn lemma_parse_render_round_trip(s: u8, d1: u8, d2: u8)
    ensures
        parsed_triple(triple_body(s, d1, d2)) == Option::Some((s, d1, d2)),
{
    let a = decimal_rep(s as int);
    let b = decimal_rep(d1 as int);
    let c = decimal_rep(d2 as int);
    lemma_decimal_rep_digits(s as int);
    lemma_decimal_rep_digits(d1 as int);
    lemma_decimal_rep_digits(d2 as int);
    let body = triple_body(s, d1, d2);

    // The first `[` is at index 0.
    assert(body[0] == '[');
    lemma_scan_len_unique(body, '[', 0);

    // Everything after it is free of `[` and ends in the single `]`.
    let rest = body.skip(1);
    let prefix = a + seq![',', ' '] + b + seq![',', ' '] + c;
    assert(rest =~= prefix + seq![']']);
    assert(no_char(a, '['));
    assert(no_char(b, '['));
    assert(no_char(c, '['));
    assert(no_char(seq![',', ' '], '['));
    assert(no_char(seq![']'], '['));
    lemma_no_char_concat(a, seq![',', ' '], '[');
    lemma_no_char_concat(a + seq![',', ' '], b, '[');
    lemma_no_char_concat(a + seq![',', ' '] + b, seq![',', ' '], '[');
    lemma_no_char_concat(a + seq![',', ' '] + b + seq![',', ' '], c, '[');
    lemma_no_char_concat(prefix, seq![']'], '[');
    lemma_scan_len_unique(rest, '[', rest.len() as int);
    assert(rest.take(rest.len() as int) =~= rest);

    // The first `]` cuts exactly the region before it.
    assert(no_char(a, ']'));
    assert(no_char(b, ']'));
    assert(no_char(c, ']'));
    assert(no_char(seq![',', ' '], ']'));
    lemma_no_char_concat(a, seq![',', ' '], ']');
    lemma_no_char_concat(a + seq![',', ' '], b, ']');
    lemma_no_char_concat(a + seq![',', ' '] + b, seq![',', ' '], ']');
    lemma_no_char_concat(a + seq![',', ' '] + b + seq![',', ' '], c, ']');
    lemma_scan_len_concat(prefix, seq![']'], ']');
    assert(scan_len(rest, ']') == prefix.len());
    assert(rest.take(prefix.len() as int) =~= prefix);
    assert(bracket_region(body) == Option::Some(prefix));

    // First segment: the digits of `s`.
    assert(no_char(a, ','));
    assert(no_char(b, ','));
    assert(no_char(c, ','));
    lemma_scan_len_concat(a, seq![',', ' '] + b + seq![',', ' '] + c, ',');
    assert(prefix =~= a + (seq![',', ' '] + b + seq![',', ' '] + c));
    assert(scan_len(seq![',', ' '] + b + seq![',', ' '] + c, ',') == 0);
    assert(scan_len(prefix, ',') == a.len());
    assert(seg(prefix, 0) == prefix.take(a.len() as int));
    assert(prefix.take(a.len() as int) =~= a);
    lemma_trimmed_digits(a);
    assert(parse_u8_spec(a) == Option::Some(s));

    // Second segment: a space and the digits of `d1`.
    let rest1 = prefix.skip(a.len() as int + 1);
    assert(rest1 =~= seq![' '] + b + seq![',', ' '] + c);
    assert(seg(prefix, 1) == seg(rest1, 0));
    assert(rest1 =~= (seq![' '] + b) + (seq![',', ' '] + c));
    assert(no_char(seq![' '] + b, ',')) by {
        lemma_no_char_concat(seq![' '], b, ',');
    }
    lemma_scan_len_concat(seq![' '] + b, seq![',', ' '] + c, ',');
    assert(scan_len(seq![',', ' '] + c, ',') == 0);
    assert(scan_len(rest1, ',') == 1 + b.len());
    assert(seg(rest1, 0) == rest1.take(1 + b.len() as int));
    assert(rest1.take(1 + b.len() as int) =~= seq![' '] + b);
    lemma_trimmed_space_digits(b);
    assert(parse_u8_spec(seq![' '] + b) == Option::Some(d1));

    // Third segment: a space and the digits of `d2`.
    let rest2 = rest1.skip(scan_len(rest1, ',') + 1);
    assert(rest2 =~= seq![' '] + c);
    assert(seg(prefix, 2) == seg(rest1, 1));
    assert(seg(rest1, 1) == seg(rest2, 0));
    assert(no_char(seq![' '] + c, ',')) by {
        lemma_no_char_concat(seq![' '], c, ',');
    }
    lemma_scan_len_unique(rest2, ',', rest2.len() as int);
    assert(seg(rest2, 0) == rest2.take(rest2.len() as int));
    assert(rest2.take(rest2.len() as int) =~= seq![' '] + c);
    lemma_trimmed_space_digits(c);
    assert(parse_u8_spec(seq![' '] + c) == Option::Some(d2));

    // All three segments exist.
    assert(scan_len(prefix, ',') < prefix.len());
    assert(scan_len(rest1, ',') < rest1.len());
    assert(has_seg(rest2, 0));
    assert(has_seg(rest1, 1));
    assert(has_seg(prefix, 2));
}

} // verus!
