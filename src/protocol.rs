use vstd::prelude::*;
use vstd::string::*;
use crate::game::Command;
use crate::geometry::{Piece, Rejection};
use crate::text::{
    is_space,
    is_digit,
    all_digits,
    lemma_dot_pos,
    lemma_nat_digits,
    unsigned_fixed,
    frac_milli,
    words,
    nat_of,
    fixed_of,
    nat_digits,
    split_words,
    views,
    parse_digits,
    parse_fixed,
};

verus! {

/// The bytes of an ASCII text.
pub open spec fn ascii(s: Seq<char>) -> Seq<u8> {
    Seq::new(s.len(), |i: int| s[i] as u8)
}

/// Appends the ASCII text `t` to `out`.
pub fn push_text(out: &mut Vec<u8>, t: &str)
    ensures
        final(out)@ == old(out)@ + ascii(t@),
{
    let n = t.unicode_len();
    let mut i: usize = 0;
    while i < n
        invariant
            n == t@.len(),
            0 <= i <= n,
            out@ == old(out)@ + ascii(t@).take(i as int),
        decreases n - i,
    {
        let c = t.get_char(i);
        out.push(c as u8);
        assert(ascii(t@).take(i + 1) =~= ascii(t@).take(i as int).push(c as u8));
        i += 1;
    }
    assert(ascii(t@).take(n as int) =~= ascii(t@));
}

/// Whether the word `w` is the ASCII text `kw`.
pub fn word_is(w: &[u8], kw: &str) -> (r: bool)
    ensures
        r == (w@ == ascii(kw@)),
{
    let n = kw.unicode_len();
    if w.len() != n {
        assert(w@.len() != ascii(kw@).len());
        return false;
    }
    let mut i: usize = 0;
    while i < n
        invariant
            n == kw@.len(),
            n == w@.len(),
            0 <= i <= n,
            forall|j: int| 0 <= j < i ==> w@[j] == ascii(kw@)[j],
        decreases n - i,
    {
        let c = kw.get_char(i);
        if w[i] != c as u8 {
            assert(w@[i as int] != ascii(kw@)[i as int]);
            return false;
        }
        i += 1;
    }
    assert(w@ =~= ascii(kw@));
    true
}

/// The words of a client's command line, read as a command: `PLACE x y r`
/// or `SHOOT index dx dy force`. Words past those are ignored.
pub open spec fn command_of(ws: Seq<Seq<u8>>) -> Option<Command> {
    if ws.len() >= 4 && ws[0] == ascii("PLACE"@) && fixed_of(ws[1]) is Some && fixed_of(ws[2]) is Some
        && fixed_of(ws[3]) is Some {
        Some(
            Command::Place {
                x: fixed_of(ws[1])->Some_0 as i32,
                y: fixed_of(ws[2])->Some_0 as i32,
                radius: fixed_of(ws[3])->Some_0 as i32,
            },
        )
    } else if ws.len() >= 5 && ws[0] == ascii("SHOOT"@) && nat_of(ws[1], usize::MAX as nat) is Some
        && fixed_of(ws[2]) is Some && fixed_of(ws[3]) is Some && fixed_of(ws[4]) is Some {
        Some(
            Command::Shoot {
                index: nat_of(ws[1], usize::MAX as nat)->Some_0 as usize,
                dx: fixed_of(ws[2])->Some_0 as i32,
                dy: fixed_of(ws[3])->Some_0 as i32,
                force: fixed_of(ws[4])->Some_0 as i32,
            },
        )
    } else {
        None
    }
}

/// Decodes one line sent by a client; `None` when it is not a command.
pub fn decode_command(line: &[u8]) -> (r: Option<Command>)
    ensures
        r == command_of(words(line@)),
{
    proof {
        reveal_strlit("PLACE");
        reveal_strlit("SHOOT");
        assert(ascii("PLACE"@)[0] != ascii("SHOOT"@)[0]);
    }
    let ws = split_words(line);
    let ghost wv = views(ws@);
    assert(forall|i: int| 0 <= i < ws@.len() ==> #[trigger] ws@[i]@ == wv[i]);
    if ws.len() >= 4 && word_is(ws[0].as_slice(), "PLACE") {
        let x = parse_fixed(ws[1].as_slice());
        let y = parse_fixed(ws[2].as_slice());
        let radius = parse_fixed(ws[3].as_slice());
        if let (Some(x), Some(y), Some(radius)) = (x, y, radius) {
            return Some(Command::Place { x, y, radius });
        }
        return None;
    }
    if ws.len() >= 5 && word_is(ws[0].as_slice(), "SHOOT") {
        let index = parse_digits(ws[1].as_slice(), 0, ws[1].len(), usize::MAX as u64);
        assert(ws@[1]@.subrange(0, ws@[1]@.len() as int) == ws@[1]@);
        let dx = parse_fixed(ws[2].as_slice());
        let dy = parse_fixed(ws[3].as_slice());
        let force = parse_fixed(ws[4].as_slice());
        if let (Some(index), Some(dx), Some(dy), Some(force)) = (index, dx, dy, force) {
            return Some(Command::Shoot { index: index as usize, dx, dy, force });
        }
        return None;
    }
    None
}

/// A fixed-point number (thousandths) as text with three decimals, such as
/// `-1.500`.
pub open spec fn fixed_text(v: int) -> Seq<u8> {
    let a: nat = if v < 0 {
        (-v) as nat
    } else {
        v as nat
    };
    (if v < 0 {
        seq![0x2du8]
    } else {
        Seq::empty()
    }) + nat_digits(a / 1000) + seq![
        0x2eu8,
        (0x30 + (a / 100) % 10) as u8,
        (0x30 + (a / 10) % 10) as u8,
        (0x30 + a % 10) as u8,
    ]
}

/// A piece as `<owner> <x> <y> <radius>`.
pub open spec fn piece_text(p: Piece) -> Seq<u8> {
    nat_digits(p.owner as nat) + seq![0x20u8] + fixed_text(p.x as int) + seq![0x20u8] + fixed_text(
        p.y as int,
    ) + seq![0x20u8] + fixed_text(p.radius as int)
}

/// Each piece preceded by a space.
pub open spec fn pieces_text(ps: Seq<Piece>) -> Seq<u8>
    decreases ps.len(),
{
    if ps.len() == 0 {
        Seq::empty()
    } else {
        pieces_text(ps.drop_last()) + seq![0x20u8] + piece_text(ps.last())
    }
}

/// The `STATE` line for a board.
pub open spec fn state_bytes(ps: Seq<Piece>) -> Seq<u8> {
    ascii("STATE "@) + nat_digits(ps.len()) + pieces_text(ps) + seq![0x0au8]
}

/// The reason sent with `ERROR` for each rejection.
pub open spec fn reason_text(r: Rejection) -> Seq<char> {
    match r {
        Rejection::NotYourTurn => "not your turn"@,
        Rejection::NonPositiveRadius => "radius must be positive"@,
        Rejection::Overlap => "overlaps an existing piece"@,
        Rejection::ZeroDirection => "direction vector must be non-zero"@,
        Rejection::IndexOutOfRange => "piece index out of range"@,
        Rejection::NotOwner => "that piece does not belong to you"@,
    }
}

/// What the server tells a client.
#[derive(Debug)]
pub enum Event {
    Waiting,
    Ready { player_id: u8 },
    YourTurn,
    OpponentTurn,
    Accepted,
    Error { reason: Rejection },
    State { pieces: Vec<Piece> },
    Disconnected,
}

/// The line, newline included, that carries an event.
pub open spec fn event_bytes(e: Event) -> Seq<u8> {
    match e {
        Event::Waiting => ascii("WAITING\n"@),
        Event::Ready { player_id } => ascii("READY "@) + nat_digits(player_id as nat) + seq![0x0au8],
        Event::YourTurn => ascii("YOUR_TURN\n"@),
        Event::OpponentTurn => ascii("OPPONENT_TURN\n"@),
        Event::Accepted => ascii("OK\n"@),
        Event::Error { reason } => ascii("ERROR "@) + ascii(reason_text(reason)) + seq![0x0au8],
        Event::State { pieces } => state_bytes(pieces@),
        Event::Disconnected => ascii("DISCONNECTED\n"@),
    }
}

/// Appends the decimal digits of `n`.
pub fn write_nat(out: &mut Vec<u8>, n: u64)
    ensures
        final(out)@ == old(out)@ + nat_digits(n as nat),
    decreases n,
{
    if n >= 10 {
        write_nat(out, n / 10);
    }
    out.push((0x30 + n % 10) as u8);
    proof {
        if n >= 10 {
            assert(old(out)@ + nat_digits(n as nat) =~= old(out)@ + nat_digits((n / 10) as nat) + seq![(0x30 + n % 10) as u8]);
        } else {
            assert(old(out)@ + nat_digits(n as nat) =~= old(out)@ + seq![(0x30 + n % 10) as u8]);
        }
    }
}

/// Appends a fixed-point number with three decimals.
pub fn write_fixed(out: &mut Vec<u8>, v: i32)
    ensures
        final(out)@ == old(out)@ + fixed_text(v as int),
{
    let a: u64 = if v < 0 { (-(v as i64)) as u64 } else { v as u64 };
    if v < 0 {
        out.push(0x2du8);
    }
    let ghost signed = out@;
    write_nat(out, a / 1000);
    out.push(0x2eu8);
    out.push((0x30 + (a / 100) % 10) as u8);
    out.push((0x30 + (a / 10) % 10) as u8);
    out.push((0x30 + a % 10) as u8);
    assert(signed == old(out)@ + (if v < 0 { seq![0x2du8] } else { Seq::<u8>::empty() }));
    assert(out@ =~= old(out)@ + fixed_text(v as int));
}

/// The decimals of a magnitude in thousandths, in their plain form: none
/// when the fraction is zero, otherwise a point and the fractional digits
/// without trailing zeros.
pub open spec fn plain_fraction(a: nat) -> Seq<u8> {
    let f = a % 1000;
    let c1 = (0x30 + (a / 100) % 10) as u8;
    let c2 = (0x30 + (a / 10) % 10) as u8;
    let c3 = (0x30 + a % 10) as u8;
    if f == 0 {
        Seq::empty()
    } else if f % 100 == 0 {
        seq![0x2eu8, c1]
    } else if f % 10 == 0 {
        seq![0x2eu8, c1, c2]
    } else {
        seq![0x2eu8, c1, c2, c3]
    }
}

/// A magnitude in thousandths in plain decimal form, such as `1.5` or `3`.
pub open spec fn plain_magnitude(a: nat) -> Seq<u8> {
    nat_digits(a / 1000) + plain_fraction(a)
}

/// A fixed-point number (thousandths) in plain decimal form: a sign for
/// negatives, the integer digits, and the fractional digits without
/// trailing zeros, the point left out when the fraction is zero. So 1500 is
/// `1.5`, -2000 is `-2` and 500 is `0.5`.
pub open spec fn plain_text(v: int) -> Seq<u8> {
    let a: nat = if v < 0 {
        (-v) as nat
    } else {
        v as nat
    };
    (if v < 0 {
        seq![0x2du8]
    } else {
        Seq::empty()
    }) + plain_magnitude(a)
}

/// Appends a fixed-point number in plain decimal form.
pub fn write_plain(out: &mut Vec<u8>, v: i32)
    ensures
        final(out)@ == old(out)@ + plain_text(v as int),
{
    let a: u64 = if v < 0 { (-(v as i64)) as u64 } else { v as u64 };
    if v < 0 {
        out.push(0x2du8);
    }
    let ghost signed = out@;
    write_nat(out, a / 1000);
    let ghost int_part = out@;
    let f = a % 1000;
    if f != 0 {
        out.push(0x2eu8);
        out.push((0x30 + (a / 100) % 10) as u8);
        if f % 100 != 0 {
            out.push((0x30 + (a / 10) % 10) as u8);
            if f % 10 != 0 {
                out.push((0x30 + a % 10) as u8);
            }
        }
    }
    let ghost an: nat = a as nat;
    assert(out@ =~= int_part + plain_fraction(an));
    assert(signed == old(out)@ + (if v < 0 { seq![0x2du8] } else { Seq::<u8>::empty() }));
    assert(out@ =~= old(out)@ + plain_text(v as int));
}

fn write_piece(out: &mut Vec<u8>, p: Piece)
    ensures
        final(out)@ == old(out)@ + piece_text(p),
{
    write_nat(out, p.owner as u64);
    out.push(0x20u8);
    write_fixed(out, p.x);
    out.push(0x20u8);
    write_fixed(out, p.y);
    out.push(0x20u8);
    write_fixed(out, p.radius);
    assert(out@ =~= old(out)@ + piece_text(p));
}

/// The `STATE` line for `pieces`.
pub fn encode_state(pieces: &Vec<Piece>) -> (r: Vec<u8>)
    ensures
        r@ == state_bytes(pieces@),
{
    let mut out: Vec<u8> = Vec::new();
    push_text(&mut out, "STATE ");
    write_nat(&mut out, pieces.len() as u64);
    let ghost head = out@;
    let mut i: usize = 0;
    while i < pieces.len()
        invariant
            0 <= i <= pieces@.len(),
            out@ == head + pieces_text(pieces@.take(i as int)),
        decreases pieces@.len() - i,
    {
        out.push(0x20u8);
        write_piece(&mut out, pieces[i]);
        assert(pieces@.take(i + 1).drop_last() =~= pieces@.take(i as int));
        assert(out@ =~= head + pieces_text(pieces@.take(i + 1)));
        i += 1;
    }
    out.push(0x0au8);
    assert(pieces@.take(pieces@.len() as int) =~= pieces@);
    assert(out@ =~= state_bytes(pieces@));
    out
}

fn reason_str(r: Rejection) -> (s: &'static str)
    ensures
        s@ == reason_text(r),
{
    match r {
        Rejection::NotYourTurn => "not your turn",
        Rejection::NonPositiveRadius => "radius must be positive",
        Rejection::Overlap => "overlaps an existing piece",
        Rejection::ZeroDirection => "direction vector must be non-zero",
        Rejection::IndexOutOfRange => "piece index out of range",
        Rejection::NotOwner => "that piece does not belong to you",
    }
}

/// The line, newline included, that carries `e`.
pub fn encode_event(e: &Event) -> (r: Vec<u8>)
    ensures
        r@ == event_bytes(*e),
{
    let mut out: Vec<u8> = Vec::new();
    match e {
        Event::Waiting => push_text(&mut out, "WAITING\n"),
        Event::Ready { player_id } => {
            push_text(&mut out, "READY ");
            write_nat(&mut out, *player_id as u64);
            out.push(0x0au8);
        },
        Event::YourTurn => push_text(&mut out, "YOUR_TURN\n"),
        Event::OpponentTurn => push_text(&mut out, "OPPONENT_TURN\n"),
        Event::Accepted => push_text(&mut out, "OK\n"),
        Event::Error { reason } => {
            push_text(&mut out, "ERROR ");
            push_text(&mut out, reason_str(*reason));
            out.push(0x0au8);
        },
        Event::State { pieces } => {
            return encode_state(pieces);
        },
        Event::Disconnected => push_text(&mut out, "DISCONNECTED\n"),
    }
    assert(out@ =~= event_bytes(*e));
    out
}


proof fn lemma_milli_split(a: nat)
    ensures
        a == (a / 1000) * 1000 + ((a / 100) % 10) * 100 + ((a / 10) % 10) * 10 + a % 10,
{
    assert(a == (a / 1000) * 1000 + ((a / 100) % 10) * 100 + ((a / 10) % 10) * 10 + a % 10) by (nonlinear_arith);
}

/// The digits, point and three decimals that write a magnitude.
pub open spec fn magnitude_text(a: nat) -> Seq<u8> {
    nat_digits(a / 1000) + seq![
        0x2eu8,
        (0x30 + (a / 100) % 10) as u8,
        (0x30 + (a / 10) % 10) as u8,
        (0x30 + a % 10) as u8,
    ]
}

proof fn lemma_magnitude_text(a: nat)
    ensures
        unsigned_fixed(magnitude_text(a)) == Some(a),
        is_digit(magnitude_text(a)[0]),
        is_digit(magnitude_text(a).last()),
        forall|i: int| 0 <= i < magnitude_text(a).len() ==> !is_space(#[trigger] magnitude_text(a)[i]),
{
    let q = a / 1000;
    let d = nat_digits(q);
    lemma_nat_digits(q);
    let c1 = (0x30 + (a / 100) % 10) as u8;
    let c2 = (0x30 + (a / 10) % 10) as u8;
    let c3 = (0x30 + a % 10) as u8;
    let b = magnitude_text(a);
    assert(b == d + seq![0x2eu8, c1, c2, c3]);
    assert forall|j: int| 0 <= j < d.len() implies b[j] != 0x2eu8 by {
        assert(b[j] == d[j]);
        assert(is_digit(d[j]));
    }
    assert(b[d.len() as int] == 0x2eu8);
    lemma_dot_pos(b, d.len() as int);
    assert(b.take(d.len() as int) =~= d);
    let fp = seq![c1, c2, c3];
    assert(b.skip(d.len() as int + 1) =~= fp);
    assert(all_digits(fp));
    assert(frac_milli(fp) == ((a / 100) % 10) * 100 + ((a / 10) % 10) * 10 + a % 10);
    lemma_milli_split(a);
    assert(b[0] == d[0]);
    assert forall|i: int| 0 <= i < b.len() implies !is_space(#[trigger] b[i]) by {
        if i < d.len() {
            assert(b[i] == d[i]);
            assert(is_digit(d[i]));
        }
    }
}

proof fn lemma_trailing_zeros(f: nat, c1: nat, c2: nat, c3: nat)
    requires
        f == c1 * 100 + c2 * 10 + c3,
        c1 <= 9,
        c2 <= 9,
        c3 <= 9,
    ensures
        f % 100 == c2 * 10 + c3,
        f % 10 == c3,
{
    assert(f % 100 == c2 * 10 + c3) by (nonlinear_arith)
        requires
            f == c1 * 100 + c2 * 10 + c3,
            c2 * 10 + c3 < 100,
    ;
    assert(f % 10 == c3) by (nonlinear_arith)
        requires
            f == c1 * 100 + c2 * 10 + c3,
            c3 < 10,
    ;
}

proof fn lemma_plain_magnitude(a: nat)
    ensures
        unsigned_fixed(plain_magnitude(a)) == Some(a),
        plain_magnitude(a).len() > 0,
        is_digit(plain_magnitude(a)[0]),
        forall|i: int| 0 <= i < plain_magnitude(a).len() ==> !is_space(#[trigger] plain_magnitude(a)[i]),
{
    let q = a / 1000;
    let d = nat_digits(q);
    lemma_nat_digits(q);
    let f = a % 1000;
    let v1 = (a / 100) % 10;
    let v2 = (a / 10) % 10;
    let v3 = a % 10;
    lemma_milli_split(a);
    assert(f == v1 * 100 + v2 * 10 + v3);
    lemma_trailing_zeros(f, v1, v2, v3);
    let tail = plain_fraction(a);
    let b = plain_magnitude(a);
    assert(b == d + tail);
    assert(b[0] == d[0]);
    assert forall|j: int| 0 <= j < d.len() implies b[j] != 0x2eu8 && !is_space(#[trigger] b[j]) by {
        assert(b[j] == d[j]);
        assert(is_digit(d[j]));
    }
    assert forall|i: int| 0 <= i < b.len() implies !is_space(#[trigger] b[i]) by {
        if i < d.len() {
            assert(b[i] == d[i]);
            assert(is_digit(d[i]));
        } else {
            assert(b[i] == tail[i - d.len()]);
        }
    }
    if f == 0 {
        assert(b =~= d);
        lemma_dot_pos(b, d.len() as int);
        assert(b.take(d.len() as int) =~= d);
        assert(frac_milli(Seq::<u8>::empty()) == 0);
    } else {
        assert(b[d.len() as int] == 0x2eu8);
        lemma_dot_pos(b, d.len() as int);
        assert(b.take(d.len() as int) =~= d);
        let fp = b.skip(d.len() as int + 1);
        assert(fp =~= tail.skip(1));
        assert(all_digits(fp));
        assert(frac_milli(fp) == f);
    }
}

/// The plain text of a fixed-point number is a single word and reads back
/// as the same number.
pub(crate) proof fn lemma_plain_text(v: i32)
    ensures
        plain_text(v as int).len() > 0,
        forall|i: int| 0 <= i < plain_text(v as int).len() ==> !is_space(#[trigger] plain_text(v as int)[i]),
        fixed_of(plain_text(v as int)) == Some(v as int),
{
    reveal(fixed_of);
    let vi = v as int;
    let a: nat = if vi < 0 { (-vi) as nat } else { vi as nat };
    let b = plain_magnitude(a);
    lemma_plain_magnitude(a);
    let sign = if vi < 0 { seq![0x2du8] } else { Seq::<u8>::empty() };
    assert(plain_text(vi) =~= sign + b);
    if vi < 0 {
        assert((sign + b).skip(1) =~= b);
        assert forall|i: int| 0 <= i < plain_text(vi).len() implies !is_space(#[trigger] plain_text(vi)[i]) by {
            if i > 0 {
                assert(plain_text(vi)[i] == b[i - 1]);
            }
        }
    } else {
        assert(sign + b =~= b);
    }
}

/// The text of a fixed-point number is a single word ending in a digit,
/// and reads back as the same number.
pub(crate) proof fn lemma_fixed_text(v: i32)
    ensures
        fixed_text(v as int).len() > 0,
        forall|i: int| 0 <= i < fixed_text(v as int).len() ==> !is_space(#[trigger] fixed_text(v as int)[i]),
        is_digit(fixed_text(v as int).last()),
        fixed_of(fixed_text(v as int)) == Some(v as int),
{
    reveal(fixed_of);
    let vi = v as int;
    let a: nat = if vi < 0 { (-vi) as nat } else { vi as nat };
    let b = magnitude_text(a);
    lemma_magnitude_text(a);
    let sign = if vi < 0 { seq![0x2du8] } else { Seq::<u8>::empty() };
    assert(fixed_text(vi) =~= sign + b);
    if vi < 0 {
        assert((sign + b).skip(1) =~= b);
        assert forall|i: int| 0 <= i < fixed_text(vi).len() implies !is_space(#[trigger] fixed_text(vi)[i]) by {
            if i > 0 {
                assert(fixed_text(vi)[i] == b[i - 1]);
            }
        }
    } else {
        assert(sign + b =~= b);
    }
}

} // verus!
