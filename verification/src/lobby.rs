//! What is decided before a session starts: where to meet, how long to
//! wait, and which handle every peer gets.

use vstd::prelude::*;
use vstd::string::StringExecFns;
use crate::config::{PlayerKind, SessionBuilder};

verus! {

/// Ticks per second of the game.
pub const FPS: usize = 60;

/// How many ticks the game may run ahead of the confirmed tick.
pub const MAX_PREDICTION: usize = 12;

/// By how many ticks the game holds local input back.
pub const INPUT_DELAY: usize = 2;

/// Where and with how many players to meet.
#[derive(Debug)]
pub struct Args {
    /// Address of the signalling relay.
    pub matchbox: String,
    /// The room to join; the next free one for `players` players if none.
    pub room: Option<String>,
    /// How many players the game is for.
    pub players: usize,
}

/// Whether the local player stands at the far wall.
#[derive(Copy, Clone, PartialEq, Eq, Debug, Structural)]
pub struct IsDeepPlayer(pub bool);

/// What the lobby does next.
#[derive(Copy, Clone, PartialEq, Eq, Debug, Structural)]
pub enum LobbyStatus {
    /// So many players are still missing.
    Waiting { remaining: usize },
    /// Everybody is there: the session can start.
    Ready,
}

impl Default for Args {
    fn default() -> (args: Args)
        ensures
            args.matchbox@ == "wss://nlezrk177f.execute-api.us-east-1.amazonaws.com/prod"@,
            args.room is None,
            args.players == 2,
    {
        Args {
            matchbox: String::from_str("wss://nlezrk177f.execute-api.us-east-1.amazonaws.com/prod"),
            room: None,
            players: 2,
        }
    }
}

/// The character for a digit.
pub open spec fn digit(d: nat) -> char {
    if d == 0 {
        '0'
    } else if d == 1 {
        '1'
    } else if d == 2 {
        '2'
    } else if d == 3 {
        '3'
    } else if d == 4 {
        '4'
    } else if d == 5 {
        '5'
    } else if d == 6 {
        '6'
    } else if d == 7 {
        '7'
    } else if d == 8 {
        '8'
    } else {
        '9'
    }
}

/// `n` in decimal, without leading zeros.
pub open spec fn decimal(n: nat) -> Seq<char>
    decreases n,
{
    if n < 10 {
        seq![digit(n)]
    } else {
        decimal(n / 10).push(digit(n % 10))
    }
}

/// The room that `args` asks for.
pub open spec fn room_id(args: &Args) -> Seq<char> {
    match args.room {
        Some(id) => id@,
        None => "?next="@ + decimal(args.players as nat),
    }
}

/// The address to connect to for `args`.
pub open spec fn room_address(args: &Args) -> Seq<char> {
    args.matchbox@ + "/"@ + room_id(args)
}

/// What the lobby shows while `remaining` players are missing.
pub open spec fn waiting_text(remaining: usize) -> Seq<char> {
    "Waiting for "@ + decimal(remaining as nat) + " more player(s)"@
}

fn digit_str(d: usize) -> (s: &'static str)
    requires
        d < 10,
    ensures
        s@ == seq![digit(d as nat)],
{
    proof {
        reveal_strlit("0");
        reveal_strlit("1");
        reveal_strlit("2");
        reveal_strlit("3");
        reveal_strlit("4");
        reveal_strlit("5");
        reveal_strlit("6");
        reveal_strlit("7");
        reveal_strlit("8");
        reveal_strlit("9");
    }
    let s = if d == 0 {
        "0"
    } else if d == 1 {
        "1"
    } else if d == 2 {
        "2"
    } else if d == 3 {
        "3"
    } else if d == 4 {
        "4"
    } else if d == 5 {
        "5"
    } else if d == 6 {
        "6"
    } else if d == 7 {
        "7"
    } else if d == 8 {
        "8"
    } else {
        "9"
    };
    s
}

/// Writes `n` in decimal.
pub fn decimal_string(n: usize) -> (s: String)
    ensures
        s@ == decimal(n as nat),
    decreases n,
{
    if n < 10 {
        String::from_str(digit_str(n))
    } else {
        let mut s = decimal_string(n / 10);
        s.append(digit_str(n % 10));
        s
    }
}

/// The address of the room to meet in: the relay's address, a slash, and
/// the room's name or the request for the next free room.
pub fn room_url(args: &Args) -> (url: String)
    ensures
        url@ == room_address(args),
{
    let mut url = args.matchbox.clone();
    url.append("/");
    match &args.room {
        Some(id) => {
            url.append(id.as_str());
        },
        None => {
            url.append("?next=");
            let count = decimal_string(args.players);
            url.append(count.as_str());
        },
    }
    url
}

/// The line that the lobby shows while it waits.
pub fn lobby_text(remaining: usize) -> (text: String)
    ensures
        text@ == waiting_text(remaining),
{
    let mut text = String::from_str("Waiting for ");
    let count = decimal_string(remaining);
    text.append(count.as_str());
    text.append(" more player(s)");
    text
}

/// Whether the lobby has to wait, with `connected` peers there besides the
/// local one, for a game of `players`.
pub fn lobby_status(players: usize, connected: usize) -> (status: LobbyStatus)
    requires
        connected < players,
    ensures
        status == if players - (connected + 1) > 0 {
            LobbyStatus::Waiting { remaining: (players - (connected + 1)) as usize }
        } else {
            LobbyStatus::Ready
        },
{
    let remaining = players - (connected + 1);
    if remaining > 0 {
        LobbyStatus::Waiting { remaining }
    } else {
        LobbyStatus::Ready
    }
}

/// The number of `ids` that are below `id`.
pub open spec fn rank(ids: Seq<u128>, id: u128) -> nat
    decreases ids.len(),
{
    if ids.len() == 0 {
        0
    } else {
        rank(ids.drop_last(), id) + if ids.last() < id {
            1nat
        } else {
            0nat
        }
    }
}

/// The handle of the peer `id` in a game between the peers `ids`: peers get
/// their handles in ascending order of their identifiers.
pub fn handle_of(ids: &Vec<u128>, id: u128) -> (handle: usize)
    ensures
        handle == rank(ids@, id),
{
    let mut handle: usize = 0;
    let mut i: usize = 0;
    while i < ids.len()
        invariant
            i <= ids@.len(),
            handle == rank(ids@.take(i as int), id),
            handle <= i,
        decreases ids@.len() - i,
    {
        assert(ids@.take(i + 1).drop_last() =~= ids@.take(i as int));
        if ids[i] < id {
            handle = handle + 1;
        }
        i = i + 1;
    }
    assert(ids@.take(i as int) =~= ids@);
    handle
}

/// Whether the local player, `own_id`, stands at the far wall: the peer
/// with the lowest identifier does.
pub fn is_deep_player(own_id: u128, peers: &Vec<u128>) -> (deep: IsDeepPlayer)
    requires
        peers@.len() > 0,
    ensures
        deep.0 == forall|i: int| 0 <= i < peers@.len() ==> own_id < peers@[i],
{
    let mut lowest = peers[0];
    let mut i: usize = 1;
    while i < peers.len()
        invariant
            1 <= i <= peers@.len(),
            forall|k: int| 0 <= k < i ==> lowest <= peers@[k],
            exists|k: int| 0 <= k < i && peers@[k] == lowest,
        decreases peers@.len() - i,
    {
        if peers[i] < lowest {
            lowest = peers[i];
        }
        i = i + 1;
    }
    IsDeepPlayer(own_id < lowest)
}

/// The settings that every peer of the game starts its session with.
pub fn game_settings(players: usize) -> (builder: SessionBuilder)
    ensures
        builder.wf(),
        builder.players() == Seq::new(players as nat, |h: int| None::<PlayerKind>),
        builder.max_prediction_window() == MAX_PREDICTION,
        builder.input_delay() == INPUT_DELAY,
        builder.fps() == FPS,
{
    SessionBuilder::new().with_num_players(players).with_max_prediction_window(MAX_PREDICTION).unwrap().with_input_delay(
        INPUT_DELAY,
    ).with_fps(FPS).unwrap()
}

/// A handle is a position: below the number of peers for a peer of the game.
pub proof fn law_rank_is_a_handle(ids: Seq<u128>, id: u128)
    ensures
        rank(ids, id) <= ids.len(),
        ids.contains(id) ==> rank(ids, id) < ids.len(),
    decreases ids.len(),
{
    if ids.len() > 0 {
        law_rank_is_a_handle(ids.drop_last(), id);
        if ids.contains(id) && ids.last() != id {
            let i = choose|i: int| 0 <= i < ids.len() && ids[i] == id;
            assert(ids.drop_last()[i] == id);
        }
    }
}

/// Handles follow the identifiers: of two peers of the game, the one with
/// the lower identifier has the lower handle.
pub proof fn law_rank_follows_identifiers(ids: Seq<u128>, a: u128, b: u128)
    requires
        a < b,
        ids.contains(a),
    ensures
        rank(ids, a) < rank(ids, b),
    decreases ids.len(),
{
    if ids.last() != a {
        let i = choose|i: int| 0 <= i < ids.len() && ids[i] == a;
        assert(ids.drop_last()[i] == a);
        law_rank_follows_identifiers(ids.drop_last(), a, b);
    } else {
        lemma_rank_grows(ids.drop_last(), a, b);
    }
}

proof fn lemma_rank_grows(ids: Seq<u128>, a: u128, b: u128)
    requires
        a <= b,
    ensures
        rank(ids, a) <= rank(ids, b),
    decreases ids.len(),
{
    if ids.len() > 0 {
        lemma_rank_grows(ids.drop_last(), a, b);
    }
}

proof fn lemma_rank_without(ids: Seq<u128>, i: int, id: u128)
    requires
        0 <= i < ids.len(),
    ensures
        rank(ids, id) == rank(ids.remove(i), id) + if ids[i] < id {
            1nat
        } else {
            0nat
        },
    decreases ids.len(),
{
    if i < ids.len() - 1 {
        lemma_rank_without(ids.drop_last(), i, id);
        assert(ids.remove(i).drop_last() =~= ids.drop_last().remove(i));
    }
}

/// Every peer arrives at the same handles: in whatever order a peer lists
/// the identifiers of the game, the handle of each is the same.
pub proof fn law_rank_ignores_order(ids: Seq<u128>, other: Seq<u128>, id: u128)
    requires
        ids.to_multiset() == other.to_multiset(),
    ensures
        rank(ids, id) == rank(other, id),
    decreases ids.len(),
{
    broadcast use vstd::seq_lib::group_to_multiset_ensures;

    if ids.len() == 0 {
        assert(ids.to_multiset().len() == 0);
    } else {
        let last = ids.last();
        assert(other.to_multiset().count(last) > 0);
        let j = choose|j: int| 0 <= j < other.len() && other[j] == last;
        assert(ids.remove(ids.len() - 1) =~= ids.drop_last());
        law_rank_ignores_order(ids.drop_last(), other.remove(j), id);
        lemma_rank_without(other, j, id);
    }
}

} // verus!
