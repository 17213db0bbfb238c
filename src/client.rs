use vstd::prelude::*;
use crate::game::Command;
use crate::geometry::Piece;
use crate::protocol::{
    ascii,
    word_is,
    fixed_text,
    plain_text,
    piece_text,
    pieces_text,
    push_text,
    write_plain,
    write_nat,
    lemma_fixed_text,
    lemma_plain_text,
};
use crate::text::{
    is_space,
    words,
    nat_of,
    fixed_of,
    split_words,
    views,
    parse_digits,
    parse_fixed,
    nat_digits,
    is_digit,
    lemma_nat_digits,
    lemma_nat_of_digits,
    lemma_words_single,
    lemma_words_split,
    lemma_words_trailing,
};

verus! {

/// `s` without leading whitespace.
pub open spec fn trim_start(s: Seq<u8>) -> Seq<u8>
    decreases s.len(),
{
    if s.len() > 0 && is_space(s[0]) {
        trim_start(s.skip(1))
    } else {
        s
    }
}

/// `s` without trailing whitespace.
pub open spec fn trim_end(s: Seq<u8>) -> Seq<u8>
    decreases s.len(),
{
    if s.len() > 0 && is_space(s.last()) {
        trim_end(s.drop_last())
    } else {
        s
    }
}

/// `s` without leading or trailing whitespace.
pub open spec fn trim(s: Seq<u8>) -> Seq<u8> {
    trim_end(trim_start(s))
}

proof fn lemma_trim_start(s: Seq<u8>, i: int)
    requires
        0 <= i <= s.len(),
        forall|j: int| 0 <= j < i ==> is_space(#[trigger] s[j]),
        i == s.len() || !is_space(s[i]),
    ensures
        trim_start(s) == s.skip(i),
    decreases i,
{
    if i > 0 {
        assert forall|j: int| 0 <= j < i - 1 implies is_space(#[trigger] s.skip(1)[j]) by {
            assert(s.skip(1)[j] == s[j + 1]);
        }
        lemma_trim_start(s.skip(1), i - 1);
        assert(s.skip(1).skip(i - 1) =~= s.skip(i));
    } else {
        assert(s.skip(0) =~= s);
    }
}

proof fn lemma_trim_end(s: Seq<u8>, k: int)
    requires
        0 <= k <= s.len(),
        forall|j: int| k <= j < s.len() ==> is_space(#[trigger] s[j]),
        k == 0 || !is_space(s[k - 1]),
    ensures
        trim_end(s) == s.take(k),
    decreases s.len() - k,
{
    if k < s.len() {
        lemma_trim_end(s.drop_last(), k);
        assert(s.drop_last().take(k) =~= s.take(k));
    } else {
        assert(s.take(k) =~= s);
    }
}

/// The bounds `[a, b)` of `s[from..]` once whitespace is trimmed off.
fn trim_bounds(s: &[u8], from: usize) -> (r: (usize, usize))
    requires
        from <= s@.len(),
    ensures
        from <= r.0 <= r.1 <= s@.len(),
        s@.subrange(r.0 as int, r.1 as int) == trim(s@.skip(from as int)),
{
    let ghost t = s@.skip(from as int);
    let mut a: usize = from;
    while a < s.len() && (s[a] == 0x20u8 || s[a] == 0x09u8 || s[a] == 0x0au8 || s[a] == 0x0bu8
        || s[a] == 0x0cu8 || s[a] == 0x0du8)
        invariant
            from <= a <= s@.len(),
            forall|j: int| from <= j < a ==> is_space(#[trigger] s@[j]),
        decreases s@.len() - a,
    {
        a += 1;
    }
    proof {
        assert forall|j: int| 0 <= j < a - from implies is_space(#[trigger] t[j]) by {
            assert(t[j] == s@[from + j]);
        }
        lemma_trim_start(t, a - from);
        assert(t.skip(a - from) =~= s@.skip(a as int));
    }
    let mut b: usize = s.len();
    while b > a && (s[b - 1] == 0x20u8 || s[b - 1] == 0x09u8 || s[b - 1] == 0x0au8 || s[b - 1]
        == 0x0bu8 || s[b - 1] == 0x0cu8 || s[b - 1] == 0x0du8)
        invariant
            a <= b <= s@.len(),
            forall|j: int| b <= j < s@.len() ==> is_space(#[trigger] s@[j]),
        decreases b - a,
    {
        b -= 1;
    }
    proof {
        let u = s@.skip(a as int);
        assert forall|j: int| b - a <= j < u.len() implies is_space(#[trigger] u[j]) by {
            assert(u[j] == s@[a + j]);
        }
        if b > a {
            assert(u[b - a - 1] == s@[b - 1]);
        }
        lemma_trim_end(u, b - a);
        assert(u.take(b - a) =~= s@.subrange(a as int, b as int));
    }
    (a, b)
}

/// The piece written by the four words of `ws` from `b` on.
pub open spec fn piece_at(ws: Seq<Seq<u8>>, b: int) -> Option<Piece> {
    if 0 <= b && b + 4 <= ws.len() && nat_of(ws[b], 255) is Some && fixed_of(ws[b + 1]) is Some
        && fixed_of(ws[b + 2]) is Some && fixed_of(ws[b + 3]) is Some {
        Some(
            Piece {
                owner: nat_of(ws[b], 255)->Some_0 as u8,
                x: fixed_of(ws[b + 1])->Some_0 as i32,
                y: fixed_of(ws[b + 2])->Some_0 as i32,
                radius: fixed_of(ws[b + 3])->Some_0 as i32,
            },
        )
    } else {
        None
    }
}

/// A board sent by the server, read from the words after `STATE`: a count,
/// then that many pieces of four words each. Words past them are ignored.
pub open spec fn board_pieces(ws: Seq<Seq<u8>>, k: nat) -> Option<Seq<Piece>>
    decreases k,
{
    if k == 0 {
        Some(Seq::empty())
    } else {
        match board_pieces(ws, (k - 1) as nat) {
            None => None,
            Some(ps) => match piece_at(ws, 1 + 4 * (k - 1)) {
                Some(p) => Some(ps.push(p)),
                None => None,
            },
        }
    }
}

pub open spec fn board_of(ws: Seq<Seq<u8>>) -> Option<Seq<Piece>> {
    if ws.len() > 0 && nat_of(ws[0], usize::MAX as nat) is Some {
        board_pieces(ws, nat_of(ws[0], usize::MAX as nat)->Some_0)
    } else {
        None
    }
}

proof fn lemma_board_pieces_short(ws: Seq<Seq<u8>>, k: nat)
    requires
        k > 0,
        ws.len() < 1 + 4 * k,
    ensures
        board_pieces(ws, k) is None,
    decreases k,
{
    if k > 0 {
        assert(1 + 4 * (k - 1) + 4 == 1 + 4 * k);
        if k > 1 && ws.len() < 1 + 4 * (k - 1) {
            lemma_board_pieces_short(ws, (k - 1) as nat);
        } else {
            assert(piece_at(ws, 1 + 4 * (k - 1)) is None);
        }
    }
}

proof fn lemma_board_none_stays(ws: Seq<Seq<u8>>, j: nat, n: nat)
    requires
        j <= n,
        board_pieces(ws, j) is None,
    ensures
        board_pieces(ws, n) is None,
    decreases n - j,
{
    if j < n {
        lemma_board_none_stays(ws, j, (n - 1) as nat);
    }
}

fn parse_piece_at(ws: &Vec<Vec<u8>>, b: usize) -> (r: Option<Piece>)
    requires
        b + 4 <= ws@.len(),
    ensures
        r == piece_at(views(ws@), b as int),
{
    let ghost wv = views(ws@);
    assert(forall|i: int| 0 <= i < ws@.len() ==> #[trigger] ws@[i]@ == wv[i]);
    let count = ws.len();
    assert(b + 3 < count);
    let owner = parse_digits(ws[b].as_slice(), 0, ws[b].len(), 255);
    assert(ws@[b as int]@.subrange(0, ws@[b as int]@.len() as int) =~= ws@[b as int]@);
    let x = parse_fixed(ws[b + 1].as_slice());
    let y = parse_fixed(ws[b + 2].as_slice());
    let radius = parse_fixed(ws[b + 3].as_slice());
    match (owner, x, y, radius) {
        (Some(owner), Some(x), Some(y), Some(radius)) => Some(Piece { owner: owner as u8, x, y, radius }),
        _ => None,
    }
}

/// Reads the pieces of a `STATE` line from the text after `STATE `.
pub fn parse_board(rest: &[u8]) -> (r: Option<Vec<Piece>>)
    ensures
        match r {
            Some(ps) => board_of(words(rest@)) == Some(ps@),
            None => board_of(words(rest@)) is None,
        },
{
    let ws = split_words(rest);
    let ghost wv = views(ws@);
    assert(forall|i: int| 0 <= i < ws@.len() ==> #[trigger] ws@[i]@ == wv[i]);
    if ws.len() == 0 {
        return None;
    }
    let n = match parse_digits(ws[0].as_slice(), 0, ws[0].len(), usize::MAX as u64) {
        Some(n) => n as usize,
        None => {
            assert(ws@[0]@.subrange(0, ws@[0]@.len() as int) =~= ws@[0]@);
            return None;
        },
    };
    assert(ws@[0]@.subrange(0, ws@[0]@.len() as int) =~= ws@[0]@);
    if n > (ws.len() - 1) / 4 {
        proof {
            lemma_board_pieces_short(wv, n as nat);
        }
        return None;
    }
    assert(4 * n <= ws@.len() - 1) by (nonlinear_arith)
        requires
            n <= (ws@.len() - 1) / 4,
            ws@.len() >= 1,
    ;
    let mut pieces: Vec<Piece> = Vec::new();
    let mut k: usize = 0;
    while k < n
        invariant
            0 <= k <= n,
            4 * n <= ws@.len() - 1,
            wv == views(ws@),
            wv == words(rest@),
            wv.len() > 0,
            nat_of(wv[0], usize::MAX as nat) == Some(n as nat),
            board_pieces(wv, k as nat) == Some(pieces@),
        decreases n - k,
    {
        let b: usize = 1 + 4 * k;
        assert(((k + 1) as nat - 1) as nat == k as nat);
        match parse_piece_at(&ws, b) {
            Some(p) => {
                let ghost before = pieces@;
                pieces.push(p);
                assert(board_pieces(wv, (k + 1) as nat) == Some(before.push(p)));
            },
            None => {
                proof {
                    assert(piece_at(wv, 1 + 4 * k) is None);
                    assert(board_pieces(wv, (k + 1) as nat) is None);
                    lemma_board_none_stays(wv, (k + 1) as nat, n as nat);
                }
                return None;
            },
        }
        k += 1;
    }
    Some(pieces)
}

/// A server line as the client reads it.
#[derive(Debug)]
pub enum ServerMsg {
    Waiting,
    Ready { player_id: u8 },
    YourTurn,
    OpponentTurn,
    Accepted,
    Error { reason: Vec<u8> },
    State { pieces: Vec<Piece> },
    Disconnected,
    Unknown { raw: Vec<u8> },
}

/// The contents of a `ServerMsg`.
pub enum MsgView {
    Waiting,
    Ready { player_id: u8 },
    YourTurn,
    OpponentTurn,
    Accepted,
    Error { reason: Seq<u8> },
    State { pieces: Seq<Piece> },
    Disconnected,
    Unknown { raw: Seq<u8> },
}

impl View for ServerMsg {
    type V = MsgView;

    open spec fn view(&self) -> MsgView {
        match self {
            ServerMsg::Waiting => MsgView::Waiting,
            ServerMsg::Ready { player_id } => MsgView::Ready { player_id: *player_id },
            ServerMsg::YourTurn => MsgView::YourTurn,
            ServerMsg::OpponentTurn => MsgView::OpponentTurn,
            ServerMsg::Accepted => MsgView::Accepted,
            ServerMsg::Error { reason } => MsgView::Error { reason: reason@ },
            ServerMsg::State { pieces } => MsgView::State { pieces: pieces@ },
            ServerMsg::Disconnected => MsgView::Disconnected,
            ServerMsg::Unknown { raw } => MsgView::Unknown { raw: raw@ },
        }
    }
}

/// `t` opens with the six-byte text `kw`.
pub open spec fn opens_with(t: Seq<u8>, kw: Seq<char>) -> bool {
    t.len() >= 6 && t.take(6) == ascii(kw)
}

/// How the client reads one line from the server, once trimmed: a bare
/// keyword, `READY <id>`, `ERROR <reason>`, `STATE <board>`, or anything
/// else, kept as it came.
pub open spec fn server_msg_of(line: Seq<u8>) -> MsgView {
    let t = trim(line);
    if t == ascii("WAITING"@) {
        MsgView::Waiting
    } else if t == ascii("YOUR_TURN"@) {
        MsgView::YourTurn
    } else if t == ascii("OPPONENT_TURN"@) {
        MsgView::OpponentTurn
    } else if t == ascii("OK"@) {
        MsgView::Accepted
    } else if t == ascii("DISCONNECTED"@) {
        MsgView::Disconnected
    } else if opens_with(t, "READY "@) && nat_of(trim(t.skip(6)), 255) is Some {
        MsgView::Ready { player_id: nat_of(trim(t.skip(6)), 255)->Some_0 as u8 }
    } else if opens_with(t, "ERROR "@) {
        MsgView::Error { reason: trim(t.skip(6)) }
    } else if opens_with(t, "STATE "@) && board_of(words(t.skip(6))) is Some {
        MsgView::State { pieces: board_of(words(t.skip(6)))->Some_0 }
    } else {
        MsgView::Unknown { raw: t }
    }
}

/// A copy of `s[a..b]`.
pub fn copy_range(s: &[u8], a: usize, b: usize) -> (r: Vec<u8>)
    requires
        a <= b <= s@.len(),
    ensures
        r@ == s@.subrange(a as int, b as int),
{
    let mut out: Vec<u8> = Vec::new();
    let mut i: usize = a;
    while i < b
        invariant
            a <= i <= b <= s@.len(),
            out@ == s@.subrange(a as int, i as int),
        decreases b - i,
    {
        out.push(s[i]);
        assert(s@.subrange(a as int, i + 1) =~= s@.subrange(a as int, i as int).push(s@[i as int]));
        i += 1;
    }
    out
}

fn opens_with_exec(t: &[u8], kw: &str) -> (r: bool)
    requires
        kw@.len() == 6,
    ensures
        r == opens_with(t@, kw@),
{
    if t.len() < 6 {
        return false;
    }
    let head = copy_range(t, 0, 6);
    assert(t@.subrange(0, 6) == t@.take(6));
    word_is(head.as_slice(), kw)
}

/// Reads one line from the server.
pub fn decode_server(line: &[u8]) -> (r: ServerMsg)
    ensures
        r@ == server_msg_of(line@),
{
    proof {
        reveal_strlit("READY ");
        reveal_strlit("ERROR ");
        reveal_strlit("STATE ");
    }
    let (a, b) = trim_bounds(line, 0);
    assert(line@.skip(0) =~= line@);
    let t = copy_range(line, a, b);
    let ts = t.as_slice();
    if word_is(ts, "WAITING") {
        return ServerMsg::Waiting;
    }
    if word_is(ts, "YOUR_TURN") {
        return ServerMsg::YourTurn;
    }
    if word_is(ts, "OPPONENT_TURN") {
        return ServerMsg::OpponentTurn;
    }
    if word_is(ts, "OK") {
        return ServerMsg::Accepted;
    }
    if word_is(ts, "DISCONNECTED") {
        return ServerMsg::Disconnected;
    }
    if opens_with_exec(ts, "READY ") {
        let (c, d) = trim_bounds(ts, 6);
        if let Some(id) = parse_digits(ts, c, d, 255) {
            return ServerMsg::Ready { player_id: id as u8 };
        }
    }
    if opens_with_exec(ts, "ERROR ") {
        let (c, d) = trim_bounds(ts, 6);
        return ServerMsg::Error { reason: copy_range(ts, c, d) };
    }
    if opens_with_exec(ts, "STATE ") {
        let rest = copy_range(ts, 6, ts.len());
        assert(rest@ == t@.skip(6));
        if let Some(pieces) = parse_board(rest.as_slice()) {
            return ServerMsg::State { pieces };
        }
    }
    ServerMsg::Unknown { raw: t }
}

/// A numeric field of a typed command.
#[derive(Debug, Clone, Copy, PartialEq, Eq, Structural)]
pub enum Field {
    X,
    Y,
    Radius,
    Dx,
    Dy,
    Force,
}

/// Why a typed command was not sent.
#[derive(Debug, Clone, Copy, PartialEq, Eq, Structural)]
pub enum InputError {
    Empty,
    UnknownCommand,
    Missing { field: Field },
    NotANumber { field: Field },
    MissingIndex,
    BadIndex,
    NonPositiveRadius,
    NonPositiveForce,
}

pub open spec fn upper_byte(b: u8) -> u8 {
    if 0x61u8 <= b <= 0x7au8 {
        (b - 0x20u8) as u8
    } else {
        b
    }
}

/// `s` with ASCII letters in upper case.
pub open spec fn upper(s: Seq<u8>) -> Seq<u8> {
    s.map_values(|b: u8| upper_byte(b))
}

/// The number in word `i` of `ws`, for `field`.
pub open spec fn field_of(ws: Seq<Seq<u8>>, i: int, field: Field) -> Result<int, InputError> {
    if i >= ws.len() {
        Err(InputError::Missing { field })
    } else {
        match fixed_of(ws[i]) {
            Some(v) => Ok(v),
            None => Err(InputError::NotANumber { field }),
        }
    }
}

/// How a line typed by the player is read: `place x y radius` or
/// `shoot index dx dy force`, the keyword in any case, with a positive
/// radius or force. Words past those are ignored.
pub open spec fn input_of(ws: Seq<Seq<u8>>) -> Result<Command, InputError> {
    if ws.len() == 0 {
        Err(InputError::Empty)
    } else if upper(ws[0]) == ascii("PLACE"@) {
        match (field_of(ws, 1, Field::X), field_of(ws, 2, Field::Y), field_of(ws, 3, Field::Radius)) {
            (Err(e), _, _) => Err(e),
            (Ok(_), Err(e), _) => Err(e),
            (Ok(_), Ok(_), Err(e)) => Err(e),
            (Ok(x), Ok(y), Ok(radius)) => if radius <= 0 {
                Err(InputError::NonPositiveRadius)
            } else {
                Ok(Command::Place { x: x as i32, y: y as i32, radius: radius as i32 })
            },
        }
    } else if upper(ws[0]) == ascii("SHOOT"@) {
        if ws.len() < 2 {
            Err(InputError::MissingIndex)
        } else if nat_of(ws[1], usize::MAX as nat) is None {
            Err(InputError::BadIndex)
        } else {
            match (field_of(ws, 2, Field::Dx), field_of(ws, 3, Field::Dy), field_of(ws, 4, Field::Force)) {
                (Err(e), _, _) => Err(e),
                (Ok(_), Err(e), _) => Err(e),
                (Ok(_), Ok(_), Err(e)) => Err(e),
                (Ok(dx), Ok(dy), Ok(force)) => if force <= 0 {
                    Err(InputError::NonPositiveForce)
                } else {
                    Ok(
                        Command::Shoot {
                            index: nat_of(ws[1], usize::MAX as nat)->Some_0 as usize,
                            dx: dx as i32,
                            dy: dy as i32,
                            force: force as i32,
                        },
                    )
                },
            }
        }
    } else {
        Err(InputError::UnknownCommand)
    }
}

fn upper_copy(w: &[u8]) -> (r: Vec<u8>)
    ensures
        r@ == upper(w@),
{
    let mut out: Vec<u8> = Vec::new();
    let mut i: usize = 0;
    while i < w.len()
        invariant
            0 <= i <= w@.len(),
            out@ == upper(w@.take(i as int)),
        decreases w@.len() - i,
    {
        let b = w[i];
        let u = if 0x61u8 <= b && b <= 0x7au8 { b - 0x20u8 } else { b };
        out.push(u);
        assert(upper(w@.take(i + 1)) =~= upper(w@.take(i as int)).push(upper_byte(b)));
        i += 1;
    }
    assert(w@.take(w@.len() as int) =~= w@);
    out
}

fn field_exec(ws: &Vec<Vec<u8>>, i: usize, field: Field) -> (r: Result<i32, InputError>)
    ensures
        match r {
            Ok(v) => field_of(views(ws@), i as int, field) == Ok::<int, InputError>(v as int),
            Err(e) => field_of(views(ws@), i as int, field) == Err::<int, InputError>(e),
        },
{
    if i >= ws.len() {
        return Err(InputError::Missing { field });
    }
    assert(ws@[i as int]@ == views(ws@)[i as int]);
    match parse_fixed(ws[i].as_slice()) {
        Some(v) => Ok(v),
        None => Err(InputError::NotANumber { field }),
    }
}

/// Reads a line typed by the player.
pub fn parse_input(line: &[u8]) -> (r: Result<Command, InputError>)
    ensures
        r == input_of(words(line@)),
{
    proof {
        reveal_strlit("PLACE");
        reveal_strlit("SHOOT");
        assert(ascii("PLACE"@)[0] != ascii("SHOOT"@)[0]);
    }
    let ws = split_words(line);
    let ghost wv = views(ws@);
    if ws.len() == 0 {
        return Err(InputError::Empty);
    }
    assert(ws@[0]@ == wv[0]);
    let kw = upper_copy(ws[0].as_slice());
    if word_is(kw.as_slice(), "PLACE") {
        let x = field_exec(&ws, 1, Field::X);
        let y = field_exec(&ws, 2, Field::Y);
        let radius = field_exec(&ws, 3, Field::Radius);
        return match (x, y, radius) {
            (Err(e), _, _) => Err(e),
            (Ok(_), Err(e), _) => Err(e),
            (Ok(_), Ok(_), Err(e)) => Err(e),
            (Ok(x), Ok(y), Ok(radius)) => if radius <= 0 {
                Err(InputError::NonPositiveRadius)
            } else {
                Ok(Command::Place { x, y, radius })
            },
        };
    }
    if word_is(kw.as_slice(), "SHOOT") {
        if ws.len() < 2 {
            return Err(InputError::MissingIndex);
        }
        assert(ws@[1]@ == wv[1]);
        assert(ws@[1]@.subrange(0, ws@[1]@.len() as int) =~= ws@[1]@);
        let index = match parse_digits(ws[1].as_slice(), 0, ws[1].len(), usize::MAX as u64) {
            Some(v) => v as usize,
            None => {
                return Err(InputError::BadIndex);
            },
        };
        let dx = field_exec(&ws, 2, Field::Dx);
        let dy = field_exec(&ws, 3, Field::Dy);
        let force = field_exec(&ws, 4, Field::Force);
        return match (dx, dy, force) {
            (Err(e), _, _) => Err(e),
            (Ok(_), Err(e), _) => Err(e),
            (Ok(_), Ok(_), Err(e)) => Err(e),
            (Ok(dx), Ok(dy), Ok(force)) => if force <= 0 {
                Err(InputError::NonPositiveForce)
            } else {
                Ok(Command::Shoot { index, dx, dy, force })
            },
        };
    }
    Err(InputError::UnknownCommand)
}

/// The line, newline included, that sends a command to the server.
pub open spec fn command_bytes(cmd: Command) -> Seq<u8> {
    match cmd {
        Command::Place { x, y, radius } => ascii("PLACE"@) + seq![0x20u8] + plain_text(x as int)
            + seq![0x20u8] + plain_text(y as int) + seq![0x20u8] + plain_text(radius as int)
            + seq![0x0au8],
        Command::Shoot { index, dx, dy, force } => ascii("SHOOT"@) + seq![0x20u8] + nat_digits(
            index as nat,
        ) + seq![0x20u8] + plain_text(dx as int) + seq![0x20u8] + plain_text(dy as int) + seq![
            0x20u8,
        ] + plain_text(force as int) + seq![0x0au8],
    }
}

/// Serialises a command for the server.
pub fn to_wire(cmd: &Command) -> (r: Vec<u8>)
    ensures
        r@ == command_bytes(*cmd),
{
    let mut out: Vec<u8> = Vec::new();
    match cmd {
        Command::Place { x, y, radius } => {
            push_text(&mut out, "PLACE");
            out.push(0x20u8);
            write_plain(&mut out, *x);
            out.push(0x20u8);
            write_plain(&mut out, *y);
            out.push(0x20u8);
            write_plain(&mut out, *radius);
        },
        Command::Shoot { index, dx, dy, force } => {
            push_text(&mut out, "SHOOT");
            out.push(0x20u8);
            write_nat(&mut out, *index as u64);
            out.push(0x20u8);
            write_plain(&mut out, *dx);
            out.push(0x20u8);
            write_plain(&mut out, *dy);
            out.push(0x20u8);
            write_plain(&mut out, *force);
        },
    }
    out.push(0x0au8);
    assert(out@ =~= command_bytes(*cmd));
    out
}




/// The four words that write a piece.
pub open spec fn piece_words(p: Piece) -> Seq<Seq<u8>> {
    seq![
        nat_digits(p.owner as nat),
        fixed_text(p.x as int),
        fixed_text(p.y as int),
        fixed_text(p.radius as int),
    ]
}

/// The words that write a sequence of pieces, four for each.
pub open spec fn pieces_words(ps: Seq<Piece>) -> Seq<Seq<u8>>
    decreases ps.len(),
{
    if ps.len() == 0 {
        Seq::empty()
    } else {
        pieces_words(ps.drop_last()) + piece_words(ps.last())
    }
}

proof fn lemma_digits_word(n: nat)
    ensures
        words(nat_digits(n)) == seq![nat_digits(n)],
        is_digit(nat_digits(n).last()),
{
    lemma_nat_digits(n);
    let d = nat_digits(n);
    assert forall|i: int| 0 <= i < d.len() implies !is_space(#[trigger] d[i]) by {
        assert(is_digit(d[i]));
    }
    assert(is_digit(d[d.len() - 1]));
    lemma_words_single(d);
}

proof fn lemma_fixed_word(v: i32)
    ensures
        words(fixed_text(v as int)) == seq![fixed_text(v as int)],
{
    lemma_fixed_text(v);
    lemma_words_single(fixed_text(v as int));
}

proof fn lemma_piece_words(p: Piece)
    ensures
        words(piece_text(p)) == piece_words(p),
        is_digit(piece_text(p).last()),
{
    let sp = seq![0x20u8];
    let d = nat_digits(p.owner as nat);
    let x = fixed_text(p.x as int);
    let y = fixed_text(p.y as int);
    let r = fixed_text(p.radius as int);
    lemma_digits_word(p.owner as nat);
    lemma_fixed_word(p.x);
    lemma_fixed_word(p.y);
    lemma_fixed_word(p.radius);
    lemma_fixed_text(p.radius);
    assert(piece_text(p) =~= ((d + sp + x) + sp + y) + sp + r);
    lemma_words_split(d, 0x20u8, x);
    lemma_words_split(d + sp + x, 0x20u8, y);
    lemma_words_split((d + sp + x) + sp + y, 0x20u8, r);
    assert(piece_words(p) =~= seq![d] + seq![x] + seq![y] + seq![r]);
    assert(piece_text(p).last() == r.last());
}

proof fn lemma_pieces_words(x: Seq<u8>, ps: Seq<Piece>)
    ensures
        words(x + pieces_text(ps)) == words(x) + pieces_words(ps),
    decreases ps.len(),
{
    if ps.len() == 0 {
        assert(x + pieces_text(ps) =~= x);
        assert(words(x) + pieces_words(ps) =~= words(x));
    } else {
        let front = ps.drop_last();
        lemma_pieces_words(x, front);
        lemma_piece_words(ps.last());
        assert(x + pieces_text(ps) =~= (x + pieces_text(front)) + seq![0x20u8] + piece_text(ps.last()));
        lemma_words_split(x + pieces_text(front), 0x20u8, piece_text(ps.last()));
        assert(words(x) + pieces_words(front) + piece_words(ps.last()) =~= words(x) + pieces_words(ps));
    }
}

proof fn lemma_pieces_words_index(ps: Seq<Piece>, j: int, i: int)
    requires
        0 <= j < ps.len(),
        0 <= i < 4,
    ensures
        pieces_words(ps)[4 * j + i] == piece_words(ps[j])[i],
    decreases ps.len(),
{
    let front = ps.drop_last();
    lemma_pieces_words_len(front);
    let front_words = pieces_words(front);
    assert(pieces_words(ps) == front_words + piece_words(ps.last()));
    if j < ps.len() - 1 {
        lemma_pieces_words_index(front, j, i);
        assert(4 * j + i < front_words.len());
        assert(front[j] == ps[j]);
    } else {
        assert(4 * j + i - front_words.len() == i);
    }
}

proof fn lemma_pieces_words_len(ps: Seq<Piece>)
    ensures
        pieces_words(ps).len() == 4 * ps.len(),
    decreases ps.len(),
{
    if ps.len() > 0 {
        lemma_pieces_words_len(ps.drop_last());
    }
}

proof fn lemma_piece_reads_back(n: nat, ps: Seq<Piece>, j: int)
    requires
        0 <= j < ps.len(),
    ensures
        piece_at(seq![nat_digits(n)] + pieces_words(ps), 1 + 4 * j) == Some(ps[j]),
{
    let pw = pieces_words(ps);
    let ws = seq![nat_digits(n)] + pw;
    let p = ps[j];
    let b = 1 + 4 * j;
    lemma_pieces_words_len(ps);
    lemma_pieces_words_index(ps, j, 0);
    lemma_pieces_words_index(ps, j, 1);
    lemma_pieces_words_index(ps, j, 2);
    lemma_pieces_words_index(ps, j, 3);
    assert(ws[b] == pw[4 * j]);
    assert(ws[b + 1] == pw[4 * j + 1]);
    assert(ws[b + 2] == pw[4 * j + 2]);
    assert(ws[b + 3] == pw[4 * j + 3]);
    lemma_nat_of_digits(p.owner as nat, 255);
    lemma_fixed_text(p.x);
    lemma_fixed_text(p.y);
    lemma_fixed_text(p.radius);
}

proof fn lemma_board_reads_back(n: nat, ps: Seq<Piece>, k: nat)
    requires
        k <= ps.len(),
    ensures
        board_pieces(seq![nat_digits(n)] + pieces_words(ps), k) == Some(ps.take(k as int)),
    decreases k,
{
    if k == 0 {
        assert(ps.take(0) =~= Seq::<Piece>::empty());
    } else {
        lemma_board_reads_back(n, ps, (k - 1) as nat);
        lemma_piece_reads_back(n, ps, k - 1);
        assert(ps.take(k as int) =~= ps.take(k - 1).push(ps[k - 1]));
    }
}

/// A board sent by the server reads back, on the client, as the same
/// pieces in the same order.
pub proof fn lemma_state_round_trip(pieces: Seq<Piece>)
    requires
        pieces.len() <= usize::MAX,
    ensures
        server_msg_of(crate::protocol::state_bytes(pieces)) == (MsgView::State { pieces }),
{
    reveal_strlit("STATE ");
    reveal_strlit("READY ");
    reveal_strlit("ERROR ");
    reveal_strlit("WAITING");
    reveal_strlit("YOUR_TURN");
    reveal_strlit("OPPONENT_TURN");
    reveal_strlit("OK");
    reveal_strlit("DISCONNECTED");
    let n = pieces.len();
    let head = ascii("STATE "@);
    let body = nat_digits(n) + crate::protocol::pieces_text(pieces);
    let t = head + body;
    let s = crate::protocol::state_bytes(pieces);
    assert(s =~= t + seq![0x0au8]);
    lemma_digits_word(n);
    if n > 0 {
        lemma_piece_words(pieces.last());
        assert(crate::protocol::pieces_text(pieces).last() == piece_text(pieces.last()).last());
        assert(t.last() == piece_text(pieces.last()).last());
    } else {
        assert(crate::protocol::pieces_text(pieces) =~= Seq::<u8>::empty());
        assert(t.last() == nat_digits(n).last());
    }
    assert(s[0] == 0x53u8);
    lemma_trim_start(s, 0);
    assert(s.skip(0) =~= s);
    assert(s[s.len() - 2] == t.last());
    lemma_trim_end(s, s.len() - 1);
    assert(s.take(s.len() - 1) =~= t);
    assert(trim(s) == t);
    assert(t[0] == 0x53u8);
    assert(t.take(6) =~= head);
    assert(t.skip(6) =~= body);
    lemma_pieces_words(nat_digits(n), pieces);
    let ws = seq![nat_digits(n)] + pieces_words(pieces);
    assert(words(body) == ws);
    assert(ws[0] == nat_digits(n));
    lemma_nat_of_digits(n, usize::MAX as nat);
    lemma_board_reads_back(n, pieces, n);
    assert(pieces.take(n as int) =~= pieces);
    assert(t != ascii("WAITING"@) && t != ascii("YOUR_TURN"@) && t != ascii("OPPONENT_TURN"@)) by {
        assert(ascii("WAITING"@)[0] != t[0]);
        assert(ascii("YOUR_TURN"@)[0] != t[0]);
        assert(ascii("OPPONENT_TURN"@)[0] != t[0]);
    }
    assert(t != ascii("OK"@) && t != ascii("DISCONNECTED"@)) by {
        assert(ascii("OK"@)[0] != t[0]);
        assert(ascii("DISCONNECTED"@)[0] != t[0]);
    }
    assert(!opens_with(t, "READY "@)) by {
        assert(t.take(6)[0] != ascii("READY "@)[0]);
    }
    assert(!opens_with(t, "ERROR "@)) by {
        assert(t.take(6)[0] != ascii("ERROR "@)[0]);
    }
}

proof fn lemma_keyword_word(kw: &str)
    requires
        kw@.len() > 0,
        forall|i: int| 0 <= i < kw@.len() ==> 0x41 <= #[trigger] (kw@[i] as u8) <= 0x5a,
    ensures
        words(ascii(kw@)) == seq![ascii(kw@)],
{
    let a = ascii(kw@);
    assert forall|i: int| 0 <= i < a.len() implies !is_space(#[trigger] a[i]) by {
        assert(a[i] == kw@[i] as u8);
    }
    lemma_words_single(a);
}

proof fn lemma_plain_reads_back(v: i32)
    ensures
        fixed_of(plain_text(v as int)) == Some(v as int),
{
    lemma_plain_text(v);
}

proof fn lemma_plain_word(v: i32)
    ensures
        words(plain_text(v as int)) == seq![plain_text(v as int)],
{
    lemma_plain_text(v);
    lemma_words_single(plain_text(v as int));
}

proof fn lemma_words_of_line4(k: Seq<u8>, a: Seq<u8>, b: Seq<u8>, c: Seq<u8>)
    requires
        words(k) == seq![k],
        words(a) == seq![a],
        words(b) == seq![b],
        words(c) == seq![c],
    ensures
        words(k + seq![0x20u8] + a + seq![0x20u8] + b + seq![0x20u8] + c + seq![0x0au8]) == seq![
            k,
            a,
            b,
            c,
        ],
{
    let sp = seq![0x20u8];
    let body = k + sp + a + sp + b + sp + c;
    lemma_words_trailing(body, 0x0au8);
    lemma_words_split(k, 0x20u8, a);
    lemma_words_split(k + sp + a, 0x20u8, b);
    lemma_words_split(k + sp + a + sp + b, 0x20u8, c);
    assert(seq![k] + seq![a] + seq![b] + seq![c] =~= seq![k, a, b, c]);
}

proof fn lemma_words_of_line5(k: Seq<u8>, a: Seq<u8>, b: Seq<u8>, c: Seq<u8>, d: Seq<u8>)
    requires
        words(k) == seq![k],
        words(a) == seq![a],
        words(b) == seq![b],
        words(c) == seq![c],
        words(d) == seq![d],
    ensures
        words(
            k + seq![0x20u8] + a + seq![0x20u8] + b + seq![0x20u8] + c + seq![0x20u8] + d + seq![0x0au8],
        ) == seq![k, a, b, c, d],
{
    let sp = seq![0x20u8];
    let body = k + sp + a + sp + b + sp + c + sp + d;
    lemma_words_trailing(body, 0x0au8);
    lemma_words_split(k, 0x20u8, a);
    lemma_words_split(k + sp + a, 0x20u8, b);
    lemma_words_split(k + sp + a + sp + b, 0x20u8, c);
    lemma_words_split(k + sp + a + sp + b + sp + c, 0x20u8, d);
    assert(seq![k] + seq![a] + seq![b] + seq![c] + seq![d] =~= seq![k, a, b, c, d]);
}

proof fn lemma_place_round_trip(x: i32, y: i32, radius: i32)
    ensures
        crate::protocol::command_of(words(command_bytes(Command::Place { x, y, radius }))) == Some(
            Command::Place { x, y, radius },
        ),
{
    reveal_strlit("PLACE");
    let k = ascii("PLACE"@);
    lemma_keyword_word("PLACE");
    lemma_plain_word(x);
    lemma_plain_word(y);
    lemma_plain_word(radius);
    lemma_words_of_line4(k, plain_text(x as int), plain_text(y as int), plain_text(radius as int));
    lemma_plain_reads_back(x);
    lemma_plain_reads_back(y);
    lemma_plain_reads_back(radius);
}

proof fn lemma_shoot_round_trip(index: usize, dx: i32, dy: i32, force: i32)
    ensures
        crate::protocol::command_of(words(command_bytes(Command::Shoot { index, dx, dy, force })))
            == Some(Command::Shoot { index, dx, dy, force }),
{
    reveal_strlit("PLACE");
    reveal_strlit("SHOOT");
    let k = ascii("SHOOT"@);
    lemma_keyword_word("SHOOT");
    lemma_digits_word(index as nat);
    lemma_plain_word(dx);
    lemma_plain_word(dy);
    lemma_plain_word(force);
    lemma_words_of_line5(
        k,
        nat_digits(index as nat),
        plain_text(dx as int),
        plain_text(dy as int),
        plain_text(force as int),
    );
    lemma_nat_of_digits(index as nat, usize::MAX as nat);
    lemma_plain_reads_back(dx);
    lemma_plain_reads_back(dy);
    lemma_plain_reads_back(force);
    assert(ascii("PLACE"@)[0] != ascii("SHOOT"@)[0]);
}

/// A command sent by the client reads back, on the server, as the same
/// command.
pub proof fn lemma_command_round_trip(cmd: Command)
    ensures
        crate::protocol::command_of(words(command_bytes(cmd))) == Some(cmd),
{
    match cmd {
        Command::Place { x, y, radius } => lemma_place_round_trip(x, y, radius),
        Command::Shoot { index, dx, dy, force } => lemma_shoot_round_trip(index, dx, dy, force),
    }
}

proof fn lemma_state_body_last(pieces: Seq<Piece>)
    ensures
        is_digit((nat_digits(pieces.len()) + pieces_text(pieces)).last()),
{
    let n = pieces.len();
    let body = nat_digits(n) + pieces_text(pieces);
    lemma_digits_word(n);
    if n > 0 {
        lemma_piece_words(pieces.last());
        assert(pieces_text(pieces).last() == piece_text(pieces.last()).last());
        assert(body.last() == piece_text(pieces.last()).last());
    } else {
        assert(pieces_text(pieces) =~= Seq::<u8>::empty());
        assert(body =~= nat_digits(n));
    }
}

/// The `STATE` line for a board is one line, ended by a single newline,
/// whose words are `STATE`, the count of pieces, and four words for each
/// piece in order: a full snapshot, never a partial one.
pub proof fn lemma_state_words(pieces: Seq<Piece>)
    ensures
        words(crate::protocol::state_bytes(pieces)) == seq![ascii("STATE"@), nat_digits(pieces.len())]
            + pieces_words(pieces),
        words(crate::protocol::state_bytes(pieces)).len() == 2 + 4 * pieces.len(),
        crate::protocol::state_bytes(pieces).last() == 0x0au8,
        !is_space(crate::protocol::state_bytes(pieces)[crate::protocol::state_bytes(pieces).len() - 2]),
        forall|i: int|
            0 <= i < crate::protocol::state_bytes(pieces).len() - 1 ==> #[trigger] crate::protocol::state_bytes(
                pieces,
            )[i] != 0x0au8,
{
    reveal_strlit("STATE ");
    reveal_strlit("STATE");
    let n = pieces.len();
    let k = ascii("STATE"@);
    let body = nat_digits(n) + pieces_text(pieces);
    let s = crate::protocol::state_bytes(pieces);
    assert(ascii("STATE "@) =~= k + seq![0x20u8]);
    assert(s =~= (k + seq![0x20u8] + body) + seq![0x0au8]);
    lemma_words_trailing(k + seq![0x20u8] + body, 0x0au8);
    lemma_keyword_word("STATE");
    lemma_words_split(k, 0x20u8, body);
    lemma_digits_word(n);
    lemma_pieces_words(nat_digits(n), pieces);
    assert(seq![k] + (seq![nat_digits(n)] + pieces_words(pieces)) =~= seq![k, nat_digits(n)]
        + pieces_words(pieces));
    lemma_pieces_words_len(pieces);
    lemma_state_body_last(pieces);
    assert(s[s.len() - 2] == body.last());
    lemma_no_newline_in_body(pieces);
    assert forall|i: int| 0 <= i < s.len() - 1 implies #[trigger] s[i] != 0x0au8 by {
        if i >= 6 {
            assert(s[i] == body[i - 6]);
        }
    }
}

proof fn lemma_no_newline_in_body(pieces: Seq<Piece>)
    ensures
        forall|i: int|
            0 <= i < (nat_digits(pieces.len()) + pieces_text(pieces)).len() ==> !is_space(
                #[trigger] (nat_digits(pieces.len()) + pieces_text(pieces))[i],
            ) || (nat_digits(pieces.len()) + pieces_text(pieces))[i] == 0x20u8,
{
    let n = pieces.len();
    lemma_nat_digits(n);
    lemma_pieces_text_chars(pieces);
    let d = nat_digits(n);
    let body = d + pieces_text(pieces);
    assert forall|i: int| 0 <= i < body.len() implies !is_space(#[trigger] body[i]) || body[i] == 0x20u8 by {
        if i < d.len() {
            assert(body[i] == d[i]);
            assert(is_digit(d[i]));
        } else {
            assert(body[i] == pieces_text(pieces)[i - d.len()]);
        }
    }
}

proof fn lemma_pieces_text_chars(pieces: Seq<Piece>)
    ensures
        forall|i: int|
            0 <= i < pieces_text(pieces).len() ==> !is_space(#[trigger] pieces_text(pieces)[i])
                || pieces_text(pieces)[i] == 0x20u8,
    decreases pieces.len(),
{
    if pieces.len() > 0 {
        let front = pieces.drop_last();
        lemma_pieces_text_chars(front);
        let p = pieces.last();
        lemma_piece_words(p);
        lemma_piece_text_chars(p);
        let t = pieces_text(front);
        assert(pieces_text(pieces) == t + seq![0x20u8] + piece_text(p));
        assert forall|i: int| 0 <= i < pieces_text(pieces).len() implies !is_space(
            #[trigger] pieces_text(pieces)[i],
        ) || pieces_text(pieces)[i] == 0x20u8 by {
            if i < t.len() {
                assert(pieces_text(pieces)[i] == t[i]);
            } else if i > t.len() {
                assert(pieces_text(pieces)[i] == piece_text(p)[i - t.len() - 1]);
            }
        }
    }
}

proof fn lemma_piece_text_chars(p: Piece)
    ensures
        forall|i: int| 0 <= i < piece_text(p).len() ==> !is_space(#[trigger] piece_text(p)[i])
            || piece_text(p)[i] == 0x20u8,
{
    let d = nat_digits(p.owner as nat);
    let x = fixed_text(p.x as int);
    let y = fixed_text(p.y as int);
    let r = fixed_text(p.radius as int);
    lemma_nat_digits(p.owner as nat);
    lemma_fixed_text(p.x);
    lemma_fixed_text(p.y);
    lemma_fixed_text(p.radius);
    let sp = seq![0x20u8];
    let t = piece_text(p);
    assert(t == d + sp + x + sp + y + sp + r);
    assert forall|i: int| 0 <= i < t.len() implies !is_space(#[trigger] t[i]) || t[i] == 0x20u8 by {
        let o1 = d.len() + 1;
        let o2 = o1 + x.len() + 1;
        let o3 = o2 + y.len() + 1;
        if i < d.len() {
            assert(t[i] == d[i]);
            assert(is_digit(d[i]));
        } else if i == d.len() {
        } else if i < o1 + x.len() {
            assert(t[i] == x[i - o1]);
        } else if i == o1 + x.len() {
        } else if i < o2 + y.len() {
            assert(t[i] == y[i - o2]);
        } else if i == o2 + y.len() {
        } else {
            assert(t[i] == r[i - o3]);
        }
    }
}

/// Over any sequence of moves from the start of a game, the `STATE` line
/// sent for the board has exactly two words plus four for each accepted
/// placement.
pub proof fn lemma_state_line_counts(moves: Seq<(u8, Command)>)
    ensures
        words(crate::protocol::state_bytes(crate::game::play(moves).pieces)).len() == 2 + 4
            * crate::game::placed_count(moves),
{
    crate::game::lemma_piece_count(moves);
    lemma_state_words(crate::game::play(moves).pieces);
}

} // verus!
