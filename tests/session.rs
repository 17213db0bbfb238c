use seb_mul_game::session::{GameLogic, Outgoing, Session};

fn lines(out: &[Outgoing]) -> Vec<(u8, String)> {
    out.iter().map(|o| (o.to, String::from_utf8(o.line.clone()).unwrap())).collect()
}

fn own(v: &[(u8, &str)]) -> Vec<(u8, String)> {
    v.iter().map(|(p, s)| (*p, s.to_string())).collect()
}

#[test]
fn opening_lines() {
    let s = Session::new();
    assert_eq!(
        lines(&s.start()),
        own(&[(0, "READY 0\n"), (0, "YOUR_TURN\n"), (1, "READY 1\n"), (1, "OPPONENT_TURN\n")])
    );
}

#[test]
fn out_of_turn_reply_goes_to_sender_only() {
    let mut s = Session::new();
    let step = s.on_line(1, b"PLACE 0 0 1");
    assert!(!step.unrecognised);
    assert_eq!(lines(&step.sends), own(&[(1, "ERROR not your turn\n")]));
    assert_eq!(s.state().turn(), 0);
    assert!(s.state().render_state().is_empty());
}

#[test]
fn accepted_move_is_broadcast() {
    let mut s = Session::new();
    let step = s.on_line(0, b"PLACE 1.0 2.0 0.5");
    assert_eq!(
        lines(&step.sends),
        own(&[
            (0, "OK\n"),
            (1, "OK\n"),
            (0, "STATE 1 0 1.000 2.000 0.500\n"),
            (1, "STATE 1 0 1.000 2.000 0.500\n"),
            (0, "OPPONENT_TURN\n"),
            (1, "YOUR_TURN\n"),
        ])
    );
    assert_eq!(s.state().turn(), 1);
}

#[test]
fn rejected_move_is_answered_to_sender() {
    let mut s = Session::new();
    s.on_line(0, b"PLACE 0 0 1");
    let step = s.on_line(1, b"PLACE 1 0 1");
    assert_eq!(lines(&step.sends), own(&[(1, "ERROR overlaps an existing piece\n")]));
    assert_eq!(s.state().turn(), 1);
}

#[test]
fn unparseable_line_is_silent() {
    let mut s = Session::new();
    let step = s.on_line(0, b"DANCE");
    assert!(step.unrecognised);
    assert!(step.sends.is_empty());
    assert_eq!(s.state().turn(), 0);
}

#[test]
fn disconnect_notifies_survivor() {
    let mut s = Session::new();
    assert!(!s.is_ended());
    let o = s.on_disconnect(0).unwrap();
    assert_eq!(o.to, 1);
    assert_eq!(o.line, b"DISCONNECTED\n".to_vec());
    assert!(s.is_ended());
    let mut t = Session::new();
    assert_eq!(t.on_disconnect(1).unwrap().to, 0);
}

#[test]
fn ended_session_sends_nothing() {
    let mut s = Session::new();
    s.on_line(0, b"PLACE 0 0 1");
    assert!(s.on_disconnect(1).is_some());
    assert!(s.on_disconnect(0).is_none());
    let step = s.on_line(1, b"PLACE 5 5 1");
    assert!(step.sends.is_empty());
    assert!(!step.unrecognised);
    let step = s.on_line(0, b"PLACE 5 5 1");
    assert!(step.sends.is_empty());
    assert_eq!(s.state().render_state().len(), 1);
    assert_eq!(s.state().turn(), 1);
}

struct Echo;

impl GameLogic for Echo {
    type Message = Vec<u8>;

    fn on_message(&mut self, msg: Vec<u8>) -> Option<Vec<u8>> {
        if msg.is_empty() { None } else { Some(msg) }
    }
}

#[test]
fn game_logic_can_be_implemented() {
    let mut e = Echo;
    assert_eq!(e.on_message(b"hi".to_vec()), Some(b"hi".to_vec()));
    assert_eq!(e.on_message(Vec::new()), None);
}
