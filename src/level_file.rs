//! The level text format: the start position, then the recorded actions, as
//! space-separated tokens. Coordinates are written as decimals in their
//! shortest form (`0`, `-1.25`, `0.000001`); frames as decimal integers.
//!
//! ```text
//! <start_x> <start_y> <entry>*
//! entry := "a" <frame>                 pen up
//!        | "b" <x> <y> <frame>         collectible placed
//!        | <x> <y> <frame>             pen move
//! ```
use crate::geometry::Vector2i;
use crate::level::Level;
use crate::playback::{MouseAction, MousePlayback, MouseState};
use vstd::prelude::*;
use vstd::string::StringSliceAdditionalSpecFns;

verus! {

pub const SPACE: u8 = 32;

pub const MINUS: u8 = 45;

pub const DOT: u8 = 46;

pub const DIGIT_ZERO: u8 = 48;

pub const TAG_PEN_UP: u8 = 97;

pub const TAG_COLLECTIBLE: u8 = 98;

/// Number of fractional digits written for a coordinate.
pub const FRAC_DIGITS: u32 = 6;

pub open spec fn is_digit(c: u8) -> bool {
    DIGIT_ZERO <= c <= DIGIT_ZERO + 9
}

pub open spec fn all_digits(t: Seq<u8>) -> bool {
    forall|i: int| 0 <= i < t.len() ==> is_digit(#[trigger] t[i])
}

/// Value of a run of decimal digits.
pub open spec fn digits_value(t: Seq<u8>) -> nat
    decreases t.len(),
{
    if t.len() == 0 {
        0
    } else {
        digits_value(t.drop_last()) * 10 + (t.last() - DIGIT_ZERO) as nat
    }
}

pub open spec fn pow10(k: nat) -> nat
    decreases k,
{
    if k == 0 {
        1
    } else {
        10 * pow10((k - 1) as nat)
    }
}

/// Decimal digits of `n`, without leading zeros.
pub open spec fn nat_text(n: nat) -> Seq<u8>
    decreases n,
{
    if n < 10 {
        seq![(DIGIT_ZERO + n) as u8]
    } else {
        nat_text(n / 10).push((DIGIT_ZERO + n % 10) as u8)
    }
}

/// The last `k` decimal digits of `r`, zero-padded.
pub open spec fn padded_text(r: nat, k: nat) -> Seq<u8>
    decreases k,
{
    if k == 0 {
        Seq::empty()
    } else {
        padded_text(r / 10, (k - 1) as nat).push((DIGIT_ZERO + r % 10) as u8)
    }
}

/// The significant fractional digits of `r`, out of `k`: the last `k` digits
/// of `r`, zero-padded, without trailing zeros.
pub open spec fn frac_text(r: nat, k: nat) -> Seq<u8>
    decreases k,
{
    if k > 0 && r % 10 == 0 {
        frac_text(r / 10, (k - 1) as nat)
    } else {
        padded_text(r, k)
    }
}

/// Text of a fixed-point coordinate in its shortest decimal form: sign, whole
/// units, and, unless it is zero, a dot and the fractional digits without
/// trailing zeros (`0`, `-1.25`, `0.000001`).
pub open spec fn fixed_text(v: int) -> Seq<u8> {
    let m = if v < 0 {
        -v
    } else {
        v
    };
    let sign = if v < 0 {
        seq![MINUS]
    } else {
        Seq::empty()
    };
    let r = (m % 1_000_000) as nat;
    let frac = if r == 0 {
        Seq::empty()
    } else {
        seq![DOT] + frac_text(r, FRAC_DIGITS as nat)
    };
    sign + nat_text((m / 1_000_000) as nat) + frac
}

/// Index of the first dot at or after `i`, or the length.
pub open spec fn dot_index(t: Seq<u8>, i: int) -> int
    decreases t.len() - i,
{
    if i < 0 || i >= t.len() || t[i] == DOT {
        i
    } else {
        dot_index(t, i + 1)
    }
}

/// Value in millionths of the fractional digits `f`: digits past the sixth
/// are ignored.
pub open spec fn frac_value(f: Seq<u8>) -> nat {
    if f.len() >= FRAC_DIGITS {
        digits_value(f.take(FRAC_DIGITS as int))
    } else {
        digits_value(f) * pow10((FRAC_DIGITS - f.len()) as nat)
    }
}

/// A decimal number: optional minus sign, at least one whole digit, and
/// optionally a dot followed by at least one digit. Its value is in
/// millionths, truncated toward zero past the sixth fractional digit.
pub open spec fn parse_fixed(t: Seq<u8>) -> Option<int> {
    let neg = t.len() > 0 && t[0] == MINUS;
    let body = if neg {
        t.subrange(1, t.len() as int)
    } else {
        t
    };
    let d = dot_index(body, 0);
    let whole = body.subrange(0, d);
    let frac = if d < body.len() {
        body.subrange(d + 1, body.len() as int)
    } else {
        Seq::empty()
    };
    if whole.len() == 0 || !all_digits(whole) || !all_digits(frac) || (d < body.len()
        && frac.len() == 0) {
        None
    } else {
        let m = digits_value(whole) * 1_000_000 + frac_value(frac);
        Some(
            if neg {
                -m
            } else {
                m as int
            },
        )
    }
}

/// A coordinate token read as a fixed-point `i32`.
pub open spec fn coord_of(t: Seq<u8>) -> Option<i32> {
    match parse_fixed(t) {
        Some(v) => if i32::MIN <= v <= i32::MAX {
            Some(v as i32)
        } else {
            None
        },
        None => None,
    }
}

/// A frame token: at least one digit, with a value that fits `u32`.
pub open spec fn frame_of(t: Seq<u8>) -> Option<u32> {
    if t.len() > 0 && all_digits(t) && digits_value(t) <= u32::MAX {
        Some(digits_value(t) as u32)
    } else {
        None
    }
}

pub proof fn lemma_nat_text(n: nat)
    ensures
        nat_text(n).len() >= 1,
        all_digits(nat_text(n)),
        digits_value(nat_text(n)) == n,
    decreases n,
{
    if n < 10 {
        assert(nat_text(n).drop_last() =~= Seq::<u8>::empty());
        assert(nat_text(n).last() == 48 + n);
        assert(digits_value(nat_text(n)) == digits_value(nat_text(n).drop_last()) * 10 + (
        nat_text(n).last() - DIGIT_ZERO) as nat);
    } else {
        lemma_nat_text(n / 10);
        let t = nat_text(n);
        assert(t.drop_last() == nat_text(n / 10));
        assert(n == (n / 10) * 10 + n % 10);
        assert(t.last() == 48 + n % 10);
        assert forall|i: int| 0 <= i < t.len() implies is_digit(#[trigger] t[i]) by {
            if i < t.len() - 1 {
                assert(t[i] == nat_text(n / 10)[i]);
            }
        }
    }
}

pub proof fn lemma_padded_text(r: nat, k: nat)
    requires
        r < pow10(k),
    ensures
        padded_text(r, k).len() == k,
        all_digits(padded_text(r, k)),
        digits_value(padded_text(r, k)) == r,
    decreases k,
{
    if k > 0 {
        assert(r / 10 < pow10((k - 1) as nat));
        lemma_padded_text(r / 10, (k - 1) as nat);
        let t = padded_text(r, k);
        assert(t.drop_last() == padded_text(r / 10, (k - 1) as nat));
        assert forall|i: int| 0 <= i < t.len() implies is_digit(#[trigger] t[i]) by {
            if i < t.len() - 1 {
                assert(t[i] == padded_text(r / 10, (k - 1) as nat)[i]);
            }
        }
    }
}

/// The dot index of `w + [DOT] + rest` when `w` has no dot.
proof fn lemma_dot_index(t: Seq<u8>, i: int, j: int)
    requires
        0 <= i <= j < t.len(),
        t[j] == DOT,
        forall|k: int| i <= k < j ==> t[k] != DOT,
    ensures
        dot_index(t, i) == j,
    decreases j - i,
{
    if i < j {
        lemma_dot_index(t, i + 1, j);
    }
}

pub proof fn lemma_pow10_six()
    ensures
        pow10(6) == 1_000_000,
{
    assert(pow10(0) == 1);
    assert(pow10(1) == 10);
    assert(pow10(2) == 100);
    assert(pow10(3) == 1000);
    assert(pow10(4) == 10_000);
    assert(pow10(5) == 100_000);
}

/// The significant fractional digits are digits, at least one and at most
/// `k`, and scaled back they give `r`.
pub proof fn lemma_frac_text(r: nat, k: nat)
    requires
        0 < r < pow10(k),
    ensures
        1 <= frac_text(r, k).len() <= k,
        all_digits(frac_text(r, k)),
        digits_value(frac_text(r, k)) * pow10((k - frac_text(r, k).len()) as nat) == r,
    decreases k,
{
    if k == 0 {
        assert(pow10(0) == 1);
    } else if r % 10 == 0 {
        let s = r / 10;
        assert(r == 10 * s);
        assert(0 < s < pow10((k - 1) as nat));
        lemma_frac_text(s, (k - 1) as nat);
        let f = frac_text(s, (k - 1) as nat);
        let e = (k - 1 - f.len()) as nat;
        assert(pow10((e + 1) as nat) == 10 * pow10(e));
        assert((k - f.len()) as nat == (e + 1) as nat);
        let dv = digits_value(f);
        assert(frac_text(r, k) == f);
        assert(dv * pow10(e) == s);
        assert(dv * (10 * pow10(e)) == 10 * (dv * pow10(e))) by (nonlinear_arith);
        assert(dv * pow10((k - f.len()) as nat) == r);
    } else {
        lemma_padded_text(r, k);
        let f = frac_text(r, k);
        assert(f == padded_text(r, k));
        assert((k - f.len()) as nat == 0);
        assert(pow10(0) == 1);
        assert(digits_value(f) * pow10(0) == r);
    }
}

/// Reading a coordinate back gives the value written.
pub proof fn lemma_fixed_round_trip(v: i32)
    ensures
        coord_of(fixed_text(v as int)) == Some(v),
        fixed_text(v as int).len() >= 1,
        forall|i: int| 0 <= i < fixed_text(v as int).len() ==> #[trigger] fixed_text(v as int)[i] != SPACE,
        fixed_text(v as int)[0] == MINUS || is_digit(fixed_text(v as int)[0]),
        is_ascii_bytes(fixed_text(v as int)),
{
    let m: int = if v < 0 {
        -v
    } else {
        v as int
    };
    let q = (m / 1_000_000) as nat;
    let r = (m % 1_000_000) as nat;
    lemma_pow10_six();
    lemma_nat_text(q);
    let w = nat_text(q);
    let f = if r == 0 {
        Seq::<u8>::empty()
    } else {
        frac_text(r, 6)
    };
    let fr = if r == 0 {
        Seq::<u8>::empty()
    } else {
        seq![DOT] + f
    };
    if r > 0 {
        lemma_frac_text(r, 6);
    }
    let body = w + fr;
    let t = fixed_text(v as int);
    if v < 0 {
        assert(t == seq![MINUS] + body);
        assert(t.subrange(1, t.len() as int) == body);
    } else {
        assert(t == body);
    }
    assert(m == q * 1_000_000 + r);
    if r == 0 {
        assert(body == w);
        assert forall|k: int| 0 <= k < w.len() implies w[k] != DOT by {
            assert(is_digit(w[k]));
        }
        lemma_dot_end(body, 0, w.len() as int);
        assert(body.subrange(0, w.len() as int) == w);
        assert(digits_value(Seq::<u8>::empty()) == 0);
        assert(all_digits(Seq::<u8>::empty()));
        assert(frac_value(Seq::<u8>::empty()) == 0);
    } else {
        assert forall|k: int| 0 <= k < w.len() implies body[k] != DOT by {
            assert(body[k] == w[k]);
            assert(is_digit(w[k]));
        }
        lemma_dot_end(body, 0, w.len() as int);
        assert(body.subrange(0, w.len() as int) == w);
        assert(body.subrange(w.len() as int + 1, body.len() as int) == f);
        if f.len() >= 6 {
            assert(f.take(6) == f);
            assert(pow10(0) == 1);
        }
    }
    assert forall|i: int| 0 <= i < t.len() implies #[trigger] t[i] != SPACE && t[i] < 128 by {
        if v < 0 && i == 0 {
        } else {
            let k = if v < 0 {
                i - 1
            } else {
                i
            };
            assert(t[i] == body[k]);
            if k < w.len() {
                assert(body[k] == w[k]);
                assert(is_digit(w[k]));
            } else if k > w.len() {
                assert(body[k] == f[k - w.len() - 1]);
                assert(is_digit(f[k - w.len() - 1]));
            }
        }
    }
    if v >= 0 {
        assert(t[0] == w[0]);
        assert(is_digit(w[0]));
    }
    let neg = t.len() > 0 && t[0] == MINUS;
    assert(neg == (v < 0));
    let d = dot_index(body, 0);
    assert(d == w.len());
    assert(body.subrange(0, d) == w);
    if r == 0 {
        assert(frac_value(Seq::<u8>::empty()) == 0);
        assert(digits_value(w) * 1_000_000 + 0 == m);
    } else {
        assert(digits_value(f) * pow10((6 - f.len()) as nat) == r);
        if f.len() >= 6 {
            assert(f.len() == 6);
            assert(f.take(6) == f);
            assert(frac_value(f) == digits_value(f));
            assert(pow10((6 - f.len()) as nat) == pow10(0));
            assert(pow10(0) == 1);
            let dv = digits_value(f);
            assert(dv * pow10((6 - f.len()) as nat) == dv * pow10(0));
            assert(dv * pow10(0) == dv) by (nonlinear_arith)
                requires
                    pow10(0) == 1,
            ;
            assert(frac_value(f) == r);
        } else {
            assert(frac_value(f) == digits_value(f) * pow10((6 - f.len()) as nat));
            assert(frac_value(f) == r);
        }
        assert(frac_value(f) == r);
        assert(digits_value(w) * 1_000_000 + frac_value(f) == m);
    }
    assert(parse_fixed(t) == Some(v as int));
}

/// Reading a frame back gives the value written.
pub proof fn lemma_frame_round_trip(f: u32)
    ensures
        frame_of(nat_text(f as nat)) == Some(f),
        forall|i: int| 0 <= i < nat_text(f as nat).len() ==> #[trigger] nat_text(f as nat)[i] != SPACE,
{
    lemma_nat_text(f as nat);
    let t = nat_text(f as nat);
    assert forall|i: int| 0 <= i < t.len() implies #[trigger] t[i] != SPACE by {
        assert(is_digit(t[i]));
    }
}

/// End of the token starting at `i`: the next space at or after `i`, or the
/// length.
pub open spec fn token_end(r: Seq<u8>, i: int) -> int
    decreases r.len() - i,
{
    if i < 0 || i >= r.len() || r[i] == SPACE {
        i
    } else {
        token_end(r, i + 1)
    }
}

pub proof fn lemma_token_end_bounds(r: Seq<u8>, i: int)
    requires
        0 <= i <= r.len(),
    ensures
        i <= token_end(r, i) <= r.len(),
        token_end(r, i) < r.len() ==> r[token_end(r, i)] == SPACE,
        forall|k: int| i <= k < token_end(r, i) ==> r[k] != SPACE,
    decreases r.len() - i,
{
    if i < r.len() && r[i] != SPACE {
        lemma_token_end_bounds(r, i + 1);
    }
}

/// A token ends at the first space.
proof fn lemma_token_end_at(r: Seq<u8>, i: int, j: int)
    requires
        0 <= i <= j <= r.len(),
        forall|k: int| i <= k < j ==> r[k] != SPACE,
        j == r.len() || r[j] == SPACE,
    ensures
        token_end(r, i) == j,
    decreases j - i,
{
    if i < j {
        lemma_token_end_at(r, i + 1, j);
    }
}

/// The first token of the remaining text `r` (possibly empty).
pub open spec fn first_token(r: Seq<u8>) -> Seq<u8> {
    r.subrange(0, token_end(r, 0))
}

/// The text after the first token and its space; `None` when the first token
/// is the last one.
pub open spec fn after_token(r: Seq<u8>) -> Option<Seq<u8>> {
    let e = token_end(r, 0);
    if e < r.len() {
        Some(r.subrange(e + 1, r.len() as int))
    } else {
        None
    }
}

/// Size of what remains to be read: every token taken makes it smaller.
pub open spec fn rem_len(rem: Option<Seq<u8>>) -> nat {
    match rem {
        Some(r) => r.len() + 1,
        None => 0,
    }
}

pub proof fn lemma_after_token_shorter(r: Seq<u8>)
    ensures
        rem_len(after_token(r)) < rem_len(Some(r)),
{
    lemma_token_end_bounds(r, 0);
}

/// Reads one coordinate token, if there is one.
pub open spec fn take_coord(rem: Option<Seq<u8>>) -> Option<(i32, Option<Seq<u8>>)> {
    match rem {
        Some(r) => match coord_of(first_token(r)) {
            Some(v) => Some((v, after_token(r))),
            None => None,
        },
        None => None,
    }
}

/// Reads one frame token, if there is one.
pub open spec fn take_frame(rem: Option<Seq<u8>>) -> Option<(u32, Option<Seq<u8>>)> {
    match rem {
        Some(r) => match frame_of(first_token(r)) {
            Some(v) => Some((v, after_token(r))),
            None => None,
        },
        None => None,
    }
}

pub open spec fn prepend(e: MouseState, rest: Option<Seq<MouseState>>) -> Option<Seq<MouseState>> {
    match rest {
        Some(t) => Some(seq![e] + t),
        None => None,
    }
}

/// The entries of the remaining text, or `None` if it is malformed. Empty
/// tokens between entries are skipped.
pub open spec fn parse_entries(rem: Option<Seq<u8>>) -> Option<Seq<MouseState>>
    decreases rem_len(rem),
{
    match rem {
        None => Some(Seq::empty()),
        Some(r) => {
            proof {
                lemma_after_token_shorter(r);
            }
            let t = first_token(r);
            let r1 = after_token(r);
            if t.len() == 0 {
                parse_entries(r1)
            } else if t == seq![TAG_PEN_UP] {
                match take_frame(r1) {
                    Some((f, r2)) => {
                        proof {
                            lemma_after_token_shorter(r1->Some_0);
                        }
                        prepend(
                            MouseState {
                                position: Vector2i { x: 0, y: 0 },
                                frame: f,
                                kind: MouseAction::PenUp,
                            },
                            parse_entries(r2),
                        )
                    },
                    None => None,
                }
            } else {
                let (xr, tagged) = if t == seq![TAG_COLLECTIBLE] {
                    (take_coord(r1), true)
                } else {
                    (
                        match coord_of(t) {
                            Some(x) => Some((x, r1)),
                            None => None,
                        },
                        false,
                    )
                };
                match xr {
                    Some((x, r2)) => match take_coord(r2) {
                        Some((y, r3)) => match take_frame(r3) {
                            Some((f, r4)) => {
                                proof {
                                    if tagged {
                                        lemma_after_token_shorter(r1->Some_0);
                                    }
                                    lemma_after_token_shorter(r2->Some_0);
                                    lemma_after_token_shorter(r3->Some_0);
                                }
                                prepend(
                                    MouseState {
                                        position: Vector2i { x, y },
                                        frame: f,
                                        kind: if tagged {
                                            MouseAction::PlaceCollectible
                                        } else {
                                            MouseAction::PenMove
                                        },
                                    },
                                    parse_entries(r4),
                                )
                            },
                            None => None,
                        },
                        None => None,
                    },
                    None => None,
                }
            }
        },
    }
}

/// A whole level text: the start position, then the entries.
pub open spec fn parse_level(s: Seq<u8>) -> Option<(Vector2i, Seq<MouseState>)> {
    match take_coord(Some(s)) {
        Some((x, r1)) => match take_coord(r1) {
            Some((y, r2)) => match parse_entries(r2) {
                Some(log) => Some((Vector2i { x, y }, log)),
                None => None,
            },
            None => None,
        },
        None => None,
    }
}

/// A token followed by a space.
pub open spec fn tok(t: Seq<u8>) -> Seq<u8> {
    t.push(SPACE)
}

/// The text of one entry.
pub open spec fn entry_text(e: MouseState) -> Seq<u8> {
    let coords = tok(fixed_text(e.position.x as int)) + tok(fixed_text(e.position.y as int));
    let frame = tok(nat_text(e.frame as nat));
    match e.kind {
        MouseAction::PenUp => tok(seq![TAG_PEN_UP]) + frame,
        MouseAction::PlaceCollectible => tok(seq![TAG_COLLECTIBLE]) + coords + frame,
        MouseAction::PenMove => coords + frame,
    }
}

/// The text of a sequence of entries.
pub open spec fn entries_text(log: Seq<MouseState>) -> Seq<u8>
    decreases log.len(),
{
    if log.len() == 0 {
        Seq::empty()
    } else {
        entries_text(log.drop_last()) + entry_text(log.last())
    }
}

/// The text of a level with start position `p` and actions `log`.
pub open spec fn level_text(p: Vector2i, log: Seq<MouseState>) -> Seq<u8> {
    tok(fixed_text(p.x as int)) + tok(fixed_text(p.y as int)) + entries_text(log)
}

/// Pen-up entries carry no position in the text; they are read back at the
/// origin.
pub open spec fn pen_ups_at_origin(log: Seq<MouseState>) -> bool {
    forall|i: int|
        0 <= i < log.len() && (#[trigger] log[i]).kind == MouseAction::PenUp ==> log[i].position
            == (Vector2i { x: 0, y: 0 })
}

/// A token without spaces, followed by a space, is read back whole.
proof fn lemma_read_token(t: Seq<u8>, rest: Seq<u8>)
    requires
        forall|i: int| 0 <= i < t.len() ==> #[trigger] t[i] != SPACE,
    ensures
        first_token(tok(t) + rest) == t,
        after_token(tok(t) + rest) == Some(rest),
{
    let r = tok(t) + rest;
    lemma_token_end_at(r, 0, t.len() as int);
    assert(r.subrange(0, t.len() as int) == t);
    assert(r.subrange(t.len() as int + 1, r.len() as int) == rest);
}

/// The entries text splits at its first entry.
proof fn lemma_entries_text_front(log: Seq<MouseState>)
    requires
        log.len() > 0,
    ensures
        entries_text(log) == entry_text(log[0]) + entries_text(log.drop_first()),
    decreases log.len(),
{
    let dl = log.drop_last();
    let df = log.drop_first();
    if log.len() > 1 {
        lemma_entries_text_front(dl);
        assert(dl.drop_first() == df.drop_last());
        assert(df.last() == log.last());
        assert(dl[0] == log[0]);
        assert(entries_text(df) == entries_text(df.drop_last()) + entry_text(df.last()));
        assert(entries_text(log) == entries_text(dl) + entry_text(log.last()));
        assert(entries_text(log) == entry_text(log[0]) + entries_text(df));
    } else {
        assert(df.len() == 0);
        assert(dl.len() == 0);
        assert(entries_text(log) == entries_text(dl) + entry_text(log.last()));
        assert(entries_text(dl) == Seq::<u8>::empty());
        assert(entries_text(df) == Seq::<u8>::empty());
        assert(entries_text(log) =~= entry_text(log[0]) + entries_text(df));
    }
}

/// Reading one entry's text back gives the entry, then the rest.
#[verifier::rlimit(40)]
proof fn lemma_entry_round_trip(e: MouseState, tail: Seq<u8>)
    requires
        e.kind == MouseAction::PenUp ==> e.position == (Vector2i { x: 0, y: 0 }),
    ensures
        parse_entries(Some(entry_text(e) + tail)) == prepend(e, parse_entries(Some(tail))),
{
    let ft = nat_text(e.frame as nat);
    let xt = fixed_text(e.position.x as int);
    let yt = fixed_text(e.position.y as int);
    lemma_frame_round_trip(e.frame);
    lemma_fixed_round_trip(e.position.x);
    lemma_fixed_round_trip(e.position.y);
    let r3 = tok(ft) + tail;
    let r2 = tok(yt) + r3;
    let r1 = tok(xt) + r2;
    lemma_read_token(ft, tail);
    lemma_read_token(yt, r3);
    lemma_read_token(xt, r2);
    assert(take_frame(Some(r3)) == Some((e.frame, Some(tail))));
    assert(take_coord(Some(r2)) == Some((e.position.y, Some(r3))));
    assert(take_coord(Some(r1)) == Some((e.position.x, Some(r2))));
    match e.kind {
        MouseAction::PenUp => {
            let u = seq![TAG_PEN_UP];
            lemma_read_token(u, r3);
            assert(entry_text(e) + tail == tok(u) + r3);
        },
        MouseAction::PlaceCollectible => {
            let b = seq![TAG_COLLECTIBLE];
            lemma_read_token(b, r1);
            assert(entry_text(e) + tail == tok(b) + r1);
            assert(b != seq![TAG_PEN_UP]);
        },
        MouseAction::PenMove => {
            assert(entry_text(e) + tail == r1);
            assert(xt != seq![TAG_PEN_UP]) by {
                assert(xt[0] != TAG_PEN_UP);
            }
            assert(xt != seq![TAG_COLLECTIBLE]) by {
                assert(xt[0] != TAG_COLLECTIBLE);
            }
        },
    }
}

/// Reading the text of entries back gives the entries.
proof fn lemma_entries_round_trip(log: Seq<MouseState>)
    requires
        pen_ups_at_origin(log),
    ensures
        parse_entries(Some(entries_text(log))) == Some(log),
    decreases log.len(),
{
    if log.len() == 0 {
        let r = Seq::<u8>::empty();
        lemma_token_end_at(r, 0, 0);
        assert(first_token(r).len() == 0);
        assert(after_token(r) is None);
        assert(parse_entries(None) == Some(Seq::<MouseState>::empty()));
        assert(entries_text(log) == r);
        assert(log == Seq::<MouseState>::empty());
    } else {
        let e = log[0];
        let rest = log.drop_first();
        assert(pen_ups_at_origin(rest)) by {
            assert forall|i: int|
                0 <= i < rest.len() && (#[trigger] rest[i]).kind == MouseAction::PenUp implies rest[i].position
                == (Vector2i { x: 0, y: 0 }) by {
                assert(rest[i] == log[i + 1]);
            }
        }
        assert(e.kind == MouseAction::PenUp ==> e.position == (Vector2i { x: 0, y: 0 }));
        lemma_entries_round_trip(rest);
        lemma_entries_text_front(log);
        lemma_entry_round_trip(e, entries_text(rest));
        assert(seq![e] + rest == log);
    }
}

/// Writing a level and reading it back gives the same start position and the
/// same actions, field for field (pen-up entries are recorded at the origin).
pub proof fn lemma_level_round_trip(p: Vector2i, log: Seq<MouseState>)
    requires
        pen_ups_at_origin(log),
    ensures
        parse_level(level_text(p, log)) == Some((p, log)),
{
    let xt = fixed_text(p.x as int);
    let yt = fixed_text(p.y as int);
    let tail = entries_text(log);
    lemma_fixed_round_trip(p.x);
    lemma_fixed_round_trip(p.y);
    lemma_read_token(yt, tail);
    lemma_read_token(xt, tok(yt) + tail);
    assert(level_text(p, log) == tok(xt) + (tok(yt) + tail));
    lemma_entries_round_trip(log);
}

/// The bytes are all ASCII.
pub open spec fn is_ascii_bytes(b: Seq<u8>) -> bool {
    forall|i: int| 0 <= i < b.len() ==> #[trigger] b[i] < 128
}

/// The characters of ASCII bytes.
pub open spec fn ascii_chars(b: Seq<u8>) -> Seq<char> {
    Seq::new(b.len(), |i: int| b[i] as char)
}

/// Relies on `String::from_utf8`: ASCII bytes are valid UTF-8, and each
/// becomes the character with the same code.
#[verifier::external_body]
fn ascii_string(bytes: Vec<u8>) -> (r: String)
    requires
        is_ascii_bytes(bytes@),
    ensures
        r@ == ascii_chars(bytes@),
{
    match String::from_utf8(bytes) {
        Ok(s) => s,
        Err(_) => String::new(),
    }
}

fn push_nat(out: &mut Vec<u8>, n: u64)
    ensures
        final(out)@ == old(out)@ + nat_text(n as nat),
    decreases n,
{
    if n >= 10 {
        push_nat(out, n / 10);
    }
    out.push(DIGIT_ZERO + (n % 10) as u8);
    assert(out@ == old(out)@ + nat_text(n as nat));
}

fn push_padded(out: &mut Vec<u8>, r: u64, k: u32)
    ensures
        final(out)@ == old(out)@ + padded_text(r as nat, k as nat),
    decreases k,
{
    if k > 0 {
        push_padded(out, r / 10, k - 1);
        out.push(DIGIT_ZERO + (r % 10) as u8);
        assert(out@ == old(out)@ + padded_text(r as nat, k as nat));
    } else {
        assert(out@ == old(out)@ + padded_text(r as nat, k as nat));
    }
}

fn push_frac(out: &mut Vec<u8>, r: u64, k: u32)
    ensures
        final(out)@ == old(out)@ + frac_text(r as nat, k as nat),
    decreases k,
{
    if k > 0 && r % 10 == 0 {
        push_frac(out, r / 10, k - 1);
    } else {
        push_padded(out, r, k);
    }
}

fn push_fixed(out: &mut Vec<u8>, v: i32)
    ensures
        final(out)@ == old(out)@ + fixed_text(v as int),
{
    let ghost o = out@;
    let m: u64 = if v < 0 {
        out.push(MINUS);
        (-(v as i64)) as u64
    } else {
        v as u64
    };
    push_nat(out, m / 1_000_000);
    let r = m % 1_000_000;
    if r != 0 {
        out.push(DOT);
        push_frac(out, r, FRAC_DIGITS);
    }
    assert(out@ == o + fixed_text(v as int));
}

/// Every level text is ASCII.
proof fn lemma_entry_text_ascii(e: MouseState)
    ensures
        is_ascii_bytes(entry_text(e)),
{
    lemma_fixed_ascii(e.position.x);
    lemma_fixed_ascii(e.position.y);
    lemma_nat_text(e.frame as nat);
    let ft = nat_text(e.frame as nat);
    assert(is_ascii_bytes(ft)) by {
        assert forall|i: int| 0 <= i < ft.len() implies #[trigger] ft[i] < 128 by {
            assert(is_digit(ft[i]));
        }
    }
}

proof fn lemma_fixed_ascii(v: i32)
    ensures
        is_ascii_bytes(fixed_text(v as int)),
{
    lemma_fixed_round_trip(v);
}

/// The text of a level: the start position, then every recorded action.
pub fn save(mouse_playback: &MousePlayback, level: &Level) -> (r: String)
    ensures
        r@ == ascii_chars(level_text(level.start_position, mouse_playback.state@)),
{
    let ghost log = mouse_playback.state@;
    let mut out: Vec<u8> = Vec::new();
    push_fixed(&mut out, level.start_position.x);
    out.push(SPACE);
    push_fixed(&mut out, level.start_position.y);
    out.push(SPACE);
    let ghost header = out@;
    proof {
        lemma_fixed_ascii(level.start_position.x);
        lemma_fixed_ascii(level.start_position.y);
        assert(header == tok(fixed_text(level.start_position.x as int)) + tok(
            fixed_text(level.start_position.y as int),
        ));
        assert(is_ascii_bytes(header));
        assert(log.take(0) == Seq::<MouseState>::empty());
        assert(out@ == header + entries_text(log.take(0)));
    }
    let n = mouse_playback.state.len();
    let mut i: usize = 0;
    while i < n
        invariant
            n == log.len(),
            log == mouse_playback.state@,
            i <= n,
            out@ == header + entries_text(log.take(i as int)),
            is_ascii_bytes(out@),
        decreases n - i,
    {
        let e = mouse_playback.state[i];
        let ghost before = out@;
        match e.kind {
            MouseAction::PenUp => {
                out.push(TAG_PEN_UP);
                out.push(SPACE);
            },
            MouseAction::PlaceCollectible => {
                out.push(TAG_COLLECTIBLE);
                out.push(SPACE);
                push_fixed(&mut out, e.position.x);
                out.push(SPACE);
                push_fixed(&mut out, e.position.y);
                out.push(SPACE);
            },
            MouseAction::PenMove => {
                push_fixed(&mut out, e.position.x);
                out.push(SPACE);
                push_fixed(&mut out, e.position.y);
                out.push(SPACE);
            },
        }
        push_nat(&mut out, e.frame as u64);
        out.push(SPACE);
        proof {
            assert(out@ == before + entry_text(e));
            assert(log.take(i + 1).drop_last() == log.take(i as int));
            assert(log.take(i + 1).last() == e);
            lemma_entry_text_ascii(e);
            assert(is_ascii_bytes(out@)) by {
                assert forall|k: int| 0 <= k < out@.len() implies #[trigger] out@[k] < 128 by {
                    if k >= before.len() {
                        assert(out@[k] == entry_text(e)[k - before.len()]);
                    } else {
                        assert(out@[k] == before[k]);
                    }
                }
            }
        }
        i = i + 1;
    }
    assert(log.take(n as int) == log);
    ascii_string(out)
}

/// What remains to be read from position `pos` of `s`: `None` once the last
/// token has been taken.
pub open spec fn rem_at(s: Seq<u8>, pos: int) -> Option<Seq<u8>> {
    if pos <= s.len() {
        Some(s.subrange(pos, s.len() as int))
    } else {
        None
    }
}

/// Finds the end of the token that starts at `pos`.
fn read_token(s: &[u8], pos: usize) -> (e: usize)
    requires
        pos <= s@.len(),
    ensures
        pos <= e <= s@.len(),
        first_token(s@.subrange(pos as int, s@.len() as int)) == s@.subrange(pos as int, e as int),
        after_token(s@.subrange(pos as int, s@.len() as int)) == rem_at(s@, e + 1),
{
    let n = s.len();
    let mut e = pos;
    while e < n && s[e] != SPACE
        invariant
            n == s@.len(),
            pos <= e <= n,
            forall|k: int| pos <= k < e ==> s@[k] != SPACE,
        decreases n - e,
    {
        e = e + 1;
    }
    proof {
        let r = s@.subrange(pos as int, n as int);
        lemma_token_end_at(r, 0, e - pos);
        assert(r.subrange(0, e - pos) == s@.subrange(pos as int, e as int));
        if e < n {
            assert(r.subrange(e - pos + 1, r.len() as int) == s@.subrange(e + 1, n as int));
        }
    }
    e
}

/// `min(value of s[a..b], cap)` when those bytes are all digits.
fn digits_capped(s: &[u8], a: usize, b: usize, cap: u64) -> (r: Option<u64>)
    requires
        a <= b <= s@.len(),
        cap <= 0x1_0000_0000_0000,
    ensures
        match r {
            Some(v) => all_digits(s@.subrange(a as int, b as int)) && v == if digits_value(
                s@.subrange(a as int, b as int),
            ) < cap {
                digits_value(s@.subrange(a as int, b as int)) as int
            } else {
                cap as int
            },
            None => !all_digits(s@.subrange(a as int, b as int)),
        },
{
    let mut acc: u64 = 0;
    let mut i = a;
    while i < b
        invariant
            a <= i <= b <= s@.len(),
            cap <= 0x1_0000_0000_0000,
            all_digits(s@.subrange(a as int, i as int)),
            acc == if digits_value(s@.subrange(a as int, i as int)) < cap {
                digits_value(s@.subrange(a as int, i as int)) as int
            } else {
                cap as int
            },
        decreases b - i,
    {
        let c = s[i];
        if c < DIGIT_ZERO || c > DIGIT_ZERO + 9 {
            proof {
                assert(s@.subrange(a as int, b as int)[i - a] == c);
            }
            return None;
        }
        let ghost old_val = digits_value(s@.subrange(a as int, i as int));
        let next = acc * 10 + (c - DIGIT_ZERO) as u64;
        acc = if next < cap {
            next
        } else {
            cap
        };
        proof {
            let t = s@.subrange(a as int, i + 1);
            assert(t.drop_last() == s@.subrange(a as int, i as int));
            assert(t.last() == c);
            assert forall|k: int| 0 <= k < t.len() implies is_digit(#[trigger] t[k]) by {
                if k < t.len() - 1 {
                    assert(t[k] == s@.subrange(a as int, i as int)[k]);
                }
            }
        }
        i = i + 1;
    }
    Some(acc)
}

/// Reads a frame token `s[a..b]`.
fn parse_frame(s: &[u8], a: usize, b: usize) -> (r: Option<u32>)
    requires
        a <= b <= s@.len(),
    ensures
        r == frame_of(s@.subrange(a as int, b as int)),
{
    if a == b {
        return None;
    }
    match digits_capped(s, a, b, 0x1_0000_0000) {
        Some(v) => if v <= u32::MAX as u64 {
            Some(v as u32)
        } else {
            None
        },
        None => None,
    }
}

/// Index of the first dot in `s[a..b]`, or `b`.
fn find_dot(s: &[u8], a: usize, b: usize) -> (d: usize)
    requires
        a <= b <= s@.len(),
    ensures
        a <= d <= b,
        d - a == dot_index(s@.subrange(a as int, b as int), 0),
{
    let mut d = a;
    while d < b && s[d] != DOT
        invariant
            a <= d <= b <= s@.len(),
            forall|k: int| a <= k < d ==> s@[k] != DOT,
        decreases b - d,
    {
        d = d + 1;
    }
    proof {
        lemma_dot_end(s@.subrange(a as int, b as int), 0, d - a);
    }
    d
}

/// The dot index is where the first dot, or the end, is.
proof fn lemma_dot_end(t: Seq<u8>, i: int, j: int)
    requires
        0 <= i <= j <= t.len(),
        j == t.len() || t[j] == DOT,
        forall|k: int| i <= k < j ==> t[k] != DOT,
    ensures
        dot_index(t, i) == j,
    decreases j - i,
{
    if i < j {
        lemma_dot_end(t, i + 1, j);
    }
}

/// Value of the fractional digits `s[a..b]` in millionths.
fn frac_millionths(s: &[u8], a: usize, b: usize) -> (r: Option<u64>)
    requires
        a <= b <= s@.len(),
    ensures
        match r {
            Some(v) => all_digits(s@.subrange(a as int, b as int)) && v == frac_value(
                s@.subrange(a as int, b as int),
            ) && v < 1_000_000,
            None => !all_digits(s@.subrange(a as int, b as int)),
        },
{
    let ghost f = s@.subrange(a as int, b as int);
    let m = if b - a < FRAC_DIGITS as usize {
        b - a
    } else {
        FRAC_DIGITS as usize
    };
    match digits_capped(s, a + m, b, 0) {
        None => {
            proof {
                let t = s@.subrange(a + m, b as int);
                let k = choose|k: int| 0 <= k < t.len() && !is_digit(#[trigger] t[k]);
                assert(t[k] == f[k + m]);
            }
            return None;
        },
        Some(_) => {},
    }
    let lead = digits_capped(s, a, a + m, 1_000_000);
    match lead {
        None => {
            proof {
                let t = s@.subrange(a as int, a + m);
                let k = choose|k: int| 0 <= k < t.len() && !is_digit(#[trigger] t[k]);
                assert(t[k] == f[k]);
            }
            None
        },
        Some(v) => {
            proof {
                let t = s@.subrange(a as int, a + m);
                assert(t == f.take(m as int));
                assert forall|k: int| 0 <= k < f.len() implies is_digit(#[trigger] f[k]) by {
                    if k < m {
                        assert(f[k] == t[k]);
                    } else {
                        assert(f[k] == s@.subrange(a + m, b as int)[k - m]);
                    }
                }
                lemma_digits_bound(t);
                lemma_pow10_six();
            }
            proof {
                lemma_pow10_small(m as nat);
                assert(pow10(0) == 1);
            }
            let ghost dv = digits_value(f.take(m as int));
            assert(dv < pow10(m as nat));
            assert(v == dv);
            assert(dv * pow10(0) == dv);
            let mut w = v;
            let mut k = m;
            while k < FRAC_DIGITS as usize
                invariant
                    m <= k <= FRAC_DIGITS,
                    w == dv * pow10((k - m) as nat),
                    w < pow10(k as nat),
                decreases FRAC_DIGITS - k,
            {
                proof {
                    lemma_pow10_small(k as nat);
                    lemma_pow10_small((k + 1) as nat);
                    assert(pow10((k + 1 - m) as nat) == 10 * pow10((k - m) as nat));
                    assert(pow10((k + 1) as nat) == 10 * pow10(k as nat));
                    assert(w * 10 == dv * pow10((k + 1 - m) as nat)) by (nonlinear_arith)
                        requires
                            w == dv * pow10((k - m) as nat),
                            pow10((k + 1 - m) as nat) == 10 * pow10((k - m) as nat),
                    ;
                }
                w = w * 10;
                k = k + 1;
            }
            proof {
                if f.len() >= FRAC_DIGITS {
                    assert(pow10(0) == 1);
                } else {
                    assert(f.take(m as int) == f);
                }
            }
            Some(w)
        },
    }
}

/// Powers of ten up to the sixth.
proof fn lemma_pow10_small(k: nat)
    requires
        k <= 6,
    ensures
        1 <= pow10(k) <= 1_000_000,
{
    lemma_pow10_six();
    assert(pow10(0) == 1);
    assert(pow10(1) == 10);
    assert(pow10(2) == 100);
    assert(pow10(3) == 1000);
    assert(pow10(4) == 10_000);
    assert(pow10(5) == 100_000);
}

/// A run of `k` digits is below `10^k`.
proof fn lemma_digits_bound(t: Seq<u8>)
    requires
        all_digits(t),
    ensures
        digits_value(t) < pow10(t.len()),
    decreases t.len(),
{
    if t.len() > 0 {
        let d = t.drop_last();
        assert forall|i: int| 0 <= i < d.len() implies is_digit(#[trigger] d[i]) by {
            assert(d[i] == t[i]);
        }
        lemma_digits_bound(d);
        assert(is_digit(t[t.len() - 1]));
    }
}

/// Reads a coordinate token `s[a..b]`.
fn parse_coord(s: &[u8], a: usize, b: usize) -> (r: Option<i32>)
    requires
        a <= b <= s@.len(),
    ensures
        r == coord_of(s@.subrange(a as int, b as int)),
{
    let ghost t = s@.subrange(a as int, b as int);
    let neg = a < b && s[a] == MINUS;
    let p = if neg {
        a + 1
    } else {
        a
    };
    let ghost body = if neg {
        t.subrange(1, t.len() as int)
    } else {
        t
    };
    assert(body == s@.subrange(p as int, b as int));
    let d = find_dot(s, p, b);
    assert(body.subrange(0, d - p) == s@.subrange(p as int, d as int));
    if d == p {
        return None;
    }
    let whole = match digits_capped(s, p, d, 10_000) {
        Some(v) => v,
        None => {
            return None;
        },
    };
    let frac = if d < b {
        if d + 1 == b {
            return None;
        }
        assert(body.subrange(d - p + 1, body.len() as int) == s@.subrange(d + 1, b as int));
        match frac_millionths(s, d + 1, b) {
            Some(v) => v,
            None => {
                return None;
            },
        }
    } else {
        proof {
            assert(frac_value(Seq::<u8>::empty()) == 0) by {
                lemma_pow10_six();
                assert(digits_value(Seq::<u8>::empty()) == 0);
            }
            assert(all_digits(Seq::<u8>::empty()));
        }
        0
    };
    if whole >= 10_000 {
        return None;
    }
    let m = whole * 1_000_000 + frac;
    if neg {
        if m > 0x8000_0000 {
            None
        } else {
            Some((-(m as i64)) as i32)
        }
    } else {
        if m > 0x7fff_ffff {
            None
        } else {
            Some(m as i32)
        }
    }
}

/// `done` followed by the entries of `rest`, if `rest` parses.
pub open spec fn prepend_all(done: Seq<MouseState>, rest: Option<Seq<MouseState>>) -> Option<
    Seq<MouseState>,
> {
    match rest {
        Some(t) => Some(done + t),
        None => None,
    }
}

/// Reads a coordinate token at `pos`, returning it and the position after it.
fn take_coord_at(s: &[u8], pos: usize) -> (r: Option<(i32, usize)>)
    requires
        s@.len() < usize::MAX,
    ensures
        match r {
            Some((v, p)) => take_coord(rem_at(s@, pos as int)) == Some((v, rem_at(s@, p as int)))
                && pos < p <= s@.len() + 1,
            None => take_coord(rem_at(s@, pos as int)) is None,
        },
{
    if pos > s.len() {
        return None;
    }
    let e = read_token(s, pos);
    match parse_coord(s, pos, e) {
        Some(v) => Some((v, e + 1)),
        None => None,
    }
}

/// Reads a frame token at `pos`, returning it and the position after it.
fn take_frame_at(s: &[u8], pos: usize) -> (r: Option<(u32, usize)>)
    requires
        s@.len() < usize::MAX,
    ensures
        match r {
            Some((v, p)) => take_frame(rem_at(s@, pos as int)) == Some((v, rem_at(s@, p as int)))
                && pos < p <= s@.len() + 1,
            None => take_frame(rem_at(s@, pos as int)) is None,
        },
{
    if pos > s.len() {
        return None;
    }
    let e = read_token(s, pos);
    match parse_frame(s, pos, e) {
        Some(v) => Some((v, e + 1)),
        None => None,
    }
}

/// Reads the entries from position `pos` to the end.
#[verifier::rlimit(60)]
fn read_entries(s: &[u8], pos: usize) -> (r: Option<Vec<MouseState>>)
    requires
        s@.len() < usize::MAX,
        pos <= s@.len() + 1,
    ensures
        match r {
            Some(v) => parse_entries(rem_at(s@, pos as int)) == Some(v@),
            None => parse_entries(rem_at(s@, pos as int)) is None,
        },
{
    let n = s.len();
    let ghost full = parse_entries(rem_at(s@, pos as int));
    let mut out: Vec<MouseState> = Vec::new();
    let mut p = pos;
    assert(out@ + Seq::<MouseState>::empty() == out@);
    while p <= n
        invariant
            n == s@.len() < usize::MAX,
            p <= n + 1,
            full == prepend_all(out@, parse_entries(rem_at(s@, p as int))),
            full == parse_entries(rem_at(s@, pos as int)),
        decreases n + 1 - p,
    {
        let e = read_token(s, p);
        let ghost r = s@.subrange(p as int, n as int);
        assert(rem_at(s@, p as int) == Some(r));
        let ghost t = s@.subrange(p as int, e as int);
        if e == p {
            assert(t.len() == 0);
            p = e + 1;
        } else if e == p + 1 && s[p] == TAG_PEN_UP {
            assert(t == seq![TAG_PEN_UP]);
            match take_frame_at(s, e + 1) {
                Some((f, q)) => {
                    let m = MouseState {
                        position: Vector2i::new(0, 0),
                        frame: f,
                        kind: MouseAction::PenUp,
                    };
                    proof {
                        let rest = parse_entries(rem_at(s@, q as int));
                        assert(parse_entries(rem_at(s@, p as int)) == prepend(m, rest));
                        if let Some(tl) = rest {
                            assert(out@ + (seq![m] + tl) == out@.push(m) + tl);
                        }
                    }
                    out.push(m);
                    p = q;
                },
                None => {
                    assert(parse_entries(rem_at(s@, p as int)) is None);
                    assert(full is None);
                    return None;
                },
            }
        } else {
            let tagged = e == p + 1 && s[p] == TAG_COLLECTIBLE;
            proof {
                if tagged {
                    assert(t == seq![TAG_COLLECTIBLE]);
                } else {
                    assert(t != seq![TAG_COLLECTIBLE]);
                }
                assert(t != seq![TAG_PEN_UP]);
            }
            let xr = if tagged {
                take_coord_at(s, e + 1)
            } else {
                match parse_coord(s, p, e) {
                    Some(x) => Some((x, e + 1)),
                    None => None,
                }
            };
            let (x, q1) = match xr {
                Some(v) => v,
                None => {
                    assert(parse_entries(rem_at(s@, p as int)) is None);
                    assert(full is None);
                    return None;
                },
            };
            let (y, q2) = match take_coord_at(s, q1) {
                Some(v) => v,
                None => {
                    assert(parse_entries(rem_at(s@, p as int)) is None);
                    assert(full is None);
                    return None;
                },
            };
            let (f, q3) = match take_frame_at(s, q2) {
                Some(v) => v,
                None => {
                    assert(parse_entries(rem_at(s@, p as int)) is None);
                    assert(full is None);
                    return None;
                },
            };
            let m = MouseState {
                position: Vector2i::new(x, y),
                frame: f,
                kind: if tagged {
                    MouseAction::PlaceCollectible
                } else {
                    MouseAction::PenMove
                },
            };
            proof {
                let rest = parse_entries(rem_at(s@, q3 as int));
                assert(parse_entries(rem_at(s@, p as int)) == prepend(m, rest));
                if let Some(tl) = rest {
                    assert(out@ + (seq![m] + tl) == out@.push(m) + tl);
                }
            }
            out.push(m);
            p = q3;
        }
    }
    assert(rem_at(s@, p as int) is None);
    assert(out@ + Seq::<MouseState>::empty() == out@);
    Some(out)
}

/// Why a level text was refused.
#[derive(Clone, Copy, Debug, PartialEq, Eq, Structural)]
pub enum LoadError {
    /// A token is missing or is not a number of the expected kind.
    Malformed,
}

/// Reads a level text into the action log and the level's start position,
/// rewinding the replay cursor. A malformed text changes nothing.
pub fn load(mouse_playback: &mut MousePlayback, level: &mut Level, s: &str) -> (r: Result<
    (),
    LoadError,
>)
    requires
        s.spec_bytes().len() < usize::MAX,
    ensures
        match parse_level(s.spec_bytes()) {
            Some((p, log)) => {
                &&& r is Ok
                &&& final(mouse_playback).state@ == log
                &&& final(level).start_position == p
                &&& final(mouse_playback).current_state == 0
                &&& final(mouse_playback).current_frame == 0
            },
            None => {
                &&& r == Err::<(), LoadError>(LoadError::Malformed)
                &&& final(mouse_playback).state@ == old(mouse_playback).state@
                &&& final(level).start_position == old(level).start_position
                &&& final(mouse_playback).current_state == old(mouse_playback).current_state
                &&& final(mouse_playback).current_frame == old(mouse_playback).current_frame
            },
        },
        final(mouse_playback).current_frame_recording == old(
            mouse_playback,
        ).current_frame_recording,
        final(mouse_playback).playing == old(mouse_playback).playing,
        final(mouse_playback).recording == old(mouse_playback).recording,
        final(mouse_playback).complete == old(mouse_playback).complete,
        final(level).collectibles@ == old(level).collectibles@,
        final(level).collected == old(level).collected,
        final(level).complete == old(level).complete,
        final(level).setup == old(level).setup,
        old(mouse_playback).wf() ==> final(mouse_playback).wf(),
{
    let b = s.as_bytes();
    assert(rem_at(b@, 0) == Some(b@)) by {
        assert(b@.subrange(0, b@.len() as int) == b@);
    }
    let (x, q1) = match take_coord_at(b, 0) {
        Some(v) => v,
        None => {
            return Err(LoadError::Malformed);
        },
    };
    let (y, q2) = match take_coord_at(b, q1) {
        Some(v) => v,
        None => {
            return Err(LoadError::Malformed);
        },
    };
    let entries = match read_entries(b, q2) {
        Some(v) => v,
        None => {
            return Err(LoadError::Malformed);
        },
    };
    mouse_playback.state = entries;
    mouse_playback.reset_playback();
    level.start_position = Vector2i::new(x, y);
    Ok(())
}

/// The UTF-8 encoding of ASCII bytes read as characters is those bytes.
pub proof fn lemma_ascii_encoding(b: Seq<u8>)
    requires
        is_ascii_bytes(b),
    ensures
        vstd::utf8::encode_utf8(ascii_chars(b)) == b,
{
    let c = ascii_chars(b);
    assert forall|i: int| 0 <= i < c.len() implies '\0' <= #[trigger] c[i] <= '\u{7f}' by {
        assert(b[i] < 128);
    }
    assert(vstd::utf8::is_ascii_chars(c));
    vstd::utf8::is_ascii_chars_encode_utf8(c);
    let e = vstd::utf8::encode_utf8(c);
    assert forall|i: int| 0 <= i < b.len() implies #[trigger] e[i] == b[i] by {
        assert(c[i] as u8 == e[i]);
    }
    assert(e =~= b);
}

/// Every level text is ASCII.
pub proof fn lemma_level_text_ascii(p: Vector2i, log: Seq<MouseState>)
    ensures
        is_ascii_bytes(level_text(p, log)),
    decreases log.len(),
{
    lemma_fixed_ascii(p.x);
    lemma_fixed_ascii(p.y);
    if log.len() > 0 {
        lemma_level_text_ascii(p, log.drop_last());
        lemma_entry_text_ascii(log.last());
        let h = tok(fixed_text(p.x as int)) + tok(fixed_text(p.y as int));
        assert(level_text(p, log) == level_text(p, log.drop_last()) + entry_text(log.last()));
        let t = level_text(p, log);
        let a = level_text(p, log.drop_last());
        assert forall|i: int| 0 <= i < t.len() implies #[trigger] t[i] < 128 by {
            if i < a.len() {
                assert(t[i] == a[i]);
            } else {
                assert(t[i] == entry_text(log.last())[i - a.len()]);
            }
        }
    } else {
        let t = level_text(p, log);
        let x = fixed_text(p.x as int);
        assert forall|i: int| 0 <= i < t.len() implies #[trigger] t[i] < 128 by {
            if i < x.len() {
                assert(t[i] == x[i]);
            } else if i > x.len() && i < t.len() - 1 {
                assert(t[i] == fixed_text(p.y as int)[i - x.len() - 1]);
            }
        }
    }
}

/// Loading the text that `save` wrote gives back the same start position and
/// the same actions (pen-up entries are recorded at the origin).
pub proof fn lemma_save_load_round_trip(p: Vector2i, log: Seq<MouseState>, text: &str)
    requires
        pen_ups_at_origin(log),
        text@ == ascii_chars(level_text(p, log)),
    ensures
        parse_level(text.spec_bytes()) == Some((p, log)),
{
    lemma_level_text_ascii(p, log);
    lemma_ascii_encoding(level_text(p, log));
    lemma_level_round_trip(p, log);
}

} // verus!
