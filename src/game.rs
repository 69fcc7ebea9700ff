//! One game room: its players, the round it is in, and the votes of that round.

use std::sync::Arc;
use rand::rngs::StdRng;
use vstd::prelude::*;
use crate::random::{sample_below, shuffle};

verus! {

/// Number of questions in a game.
pub const QUESTION_COUNT: u8 = 10;

/// Progress of a game.
#[derive(Clone, Copy, Debug, PartialEq, Eq, Structural)]
pub enum Step {
    Lobby,
    Question(u8),
    Finished,
}

/// The step that follows `s`: the lobby leads to the first question, each
/// question to the next, the last question to the end, and the end back to
/// the lobby.
pub open spec fn next_step(s: Step) -> Step {
    match s {
        Step::Lobby => Step::Question(0),
        Step::Question(i) => if i + 1 >= QUESTION_COUNT {
            Step::Finished
        } else {
            Step::Question((i + 1) as u8)
        },
        Step::Finished => Step::Lobby,
    }
}

/// The step reached from `s` after `n` advances.
pub open spec fn advanced(s: Step, n: nat) -> Step
    decreases n,
{
    if n == 0 {
        s
    } else {
        next_step(advanced(s, (n - 1) as nat))
    }
}

/// The number by which a step is shown to clients: 0 in the lobby, the
/// question's index during a question, and the last index at the end.
pub open spec fn wire_number(s: Step) -> i16 {
    match s {
        Step::Lobby => 0,
        Step::Question(q) => q as i16,
        Step::Finished => (QUESTION_COUNT - 1) as i16,
    }
}

impl Step {
    /// Moves to the next step and returns it.
    pub fn advance(&mut self) -> (r: Step)
        ensures
            r == next_step(*old(self)),
            *final(self) == r,
    {
        let next = match *self {
            Step::Lobby => Step::Question(0),
            Step::Question(i) => if i >= QUESTION_COUNT - 1 {
                Step::Finished
            } else {
                Step::Question(i + 1)
            },
            Step::Finished => Step::Lobby,
        };
        *self = next;
        next
    }

    /// The number by which this step is shown to clients.
    pub fn wire_index(&self) -> (r: i16)
        ensures
            r == wire_number(*self),
    {
        match *self {
            Step::Lobby => 0,
            Step::Question(q) => q as i16,
            Step::Finished => (QUESTION_COUNT - 1) as i16,
        }
    }
}

/// From the lobby, advances one to ten reach the questions in order, the
/// eleventh reaches the end of the game and the twelfth the lobby again.
pub proof fn lemma_step_sequence()
    ensures
        forall|i: int| 0 <= i < QUESTION_COUNT ==> #[trigger] advanced(Step::Lobby, (i + 1) as nat) == Step::Question(i as u8),
        advanced(Step::Lobby, (QUESTION_COUNT + 1) as nat) == Step::Finished,
        advanced(Step::Lobby, (QUESTION_COUNT + 2) as nat) == Step::Lobby,
{
    assert forall|i: int| 0 <= i < QUESTION_COUNT implies #[trigger] advanced(Step::Lobby, (i + 1) as nat) == Step::Question(i as u8) by {
        lemma_questions_in_order(i);
    }
    lemma_questions_in_order(QUESTION_COUNT - 1);
    assert(advanced(Step::Lobby, (QUESTION_COUNT + 1) as nat) == next_step(advanced(Step::Lobby, QUESTION_COUNT as nat)));
}

proof fn lemma_questions_in_order(i: int)
    requires
        0 <= i < QUESTION_COUNT,
    ensures
        advanced(Step::Lobby, (i + 1) as nat) == Step::Question(i as u8),
    decreases i,
{
    if i > 0 {
        lemma_questions_in_order(i - 1);
        assert(advanced(Step::Lobby, (i + 1) as nat) == next_step(advanced(Step::Lobby, i as nat)));
    } else {
        assert(advanced(Step::Lobby, 1) == next_step(advanced(Step::Lobby, 0)));
    }
}

/// A seated player.
#[derive(Debug)]
pub struct Player {
    pub username: String,
    pub avatar: String,
}

/// A vote: the player who voted, then the choice (a player's name or an
/// answer).
pub type Vote = (String, String);

/// A question of the corpus: plain, or a tag question that names a player and
/// offers triples of choices.
#[derive(Debug)]
pub enum Prompt {
    Question(String),
    Tag(String, Vec<(String, String, String)>),
}

/// A question as one client receives it; a tag question carries the name of
/// the player it is about.
#[derive(Debug)]
pub enum ClientPrompt {
    Question(String),
    Tag(String, String, Vec<(String, String, String)>),
}

/// Whether `c` is the prompt `p` as sent to a client, about `subject`.
pub open spec fn presents(p: Prompt, subject: Seq<char>, c: ClientPrompt) -> bool {
    match p {
        Prompt::Question(s) => c matches ClientPrompt::Question(t) && t@ == s@,
        Prompt::Tag(s, v) => c matches ClientPrompt::Tag(t, u, w) && t@ == s@ && u@ == subject && w@
            == v@,
    }
}

impl Prompt {
    /// The prompt as sent to a client, about the player `username`.
    pub fn into_client(&self, username: &str) -> (r: ClientPrompt)
        ensures
            presents(*self, username@, r),
    {
        match self {
            Prompt::Question(s) => ClientPrompt::Question(s.clone()),
            Prompt::Tag(s, v) => {
                let mut w: Vec<(String, String, String)> = Vec::new();
                let mut i: usize = 0;
                while i < v.len()
                    invariant
                        i <= v@.len(),
                        w@ == v@.take(i as int),
                    decreases v@.len() - i,
                {
                    let t = (v[i].0.clone(), v[i].1.clone(), v[i].2.clone());
                    w.push(t);
                    assert(w@ =~= v@.take(i + 1));
                    i += 1;
                }
                assert(v@.take(v@.len() as int) =~= v@);
                ClientPrompt::Tag(s.clone(), username.to_owned(), w)
            },
        }
    }
}

/// What a client may be told.
#[derive(Clone, Copy, Debug, PartialEq, Eq, Structural)]
pub enum ErrorMsg {
    UsedUsername,
    EmptyUsername,
    RoomNotFound,
}

/// A message to clients.
#[derive(Debug)]
pub enum ServerEvent {
    /// Whether a room exists: its code, or `None`.
    RoomProbeResult { code: Option<String> },
    /// All a client that has just joined must know of the room.
    OnRoomJoin { code: String, players: Vec<Player>, step: Step },
    /// The players, after one came or left.
    RoomUpdate { players: Vec<Player> },
    /// A new question.
    NewRound { question: ClientPrompt },
    /// How many players have answered so far.
    RoundUpdate { ready_player_count: u32 },
    /// Every vote of the round, once all have answered.
    RoundOver { votes: Vec<Vote> },
    Error { code: ErrorMsg },
    GameOver,
}

/// A message from a client inside a room.
#[derive(Debug)]
pub enum ClientEventGame {
    StartRound,
    Answer { vote: Vote },
    LeaveRoom,
}

/// What the host is to do after a room handled a message.
#[derive(Debug)]
pub enum Reply {
    /// Send this to every client in the room.
    Broadcast(ServerEvent),
    /// Send one of these to each client in the room, in turn.
    BroadcastEach(Vec<ServerEvent>),
    /// Move the sender back to the lobby.
    ToLobby,
}

/// Whether a player named `name` sits in `ps`.
pub open spec fn has_player(ps: Seq<Player>, name: Seq<char>) -> bool {
    exists|i: int| 0 <= i < ps.len() && (#[trigger] ps[i]).username@ == name
}

/// No two players of `ps` share a name.
pub open spec fn distinct_names(ps: Seq<Player>) -> bool {
    forall|i: int, j: int|
        0 <= i < ps.len() && 0 <= j < ps.len() && i != j ==> (#[trigger] ps[i]).username@
            != (#[trigger] ps[j]).username@
}

/// The names of `ps`, in order.
pub open spec fn names(ps: Seq<Player>) -> Seq<Seq<char>> {
    ps.map_values(|p: Player| p.username@)
}

/// The roster `ps` after `p` asked to join: unchanged if the name is taken.
pub open spec fn joined(ps: Seq<Player>, p: Player) -> Seq<Player> {
    if has_player(ps, p.username@) {
        ps
    } else {
        ps.push(p)
    }
}

/// The roster `ps` without the player named `name`.
pub open spec fn without_player(ps: Seq<Player>, name: Seq<char>) -> Seq<Player>
    decreases ps.len(),
{
    if ps.len() == 0 {
        ps
    } else {
        let rest = without_player(ps.drop_last(), name);
        if ps.last().username@ == name {
            rest
        } else {
            rest.push(ps.last())
        }
    }
}

/// Whether a vote by `voter` is among `vs`.
pub open spec fn has_voter(vs: Seq<Vote>, voter: Seq<char>) -> bool {
    exists|i: int| 0 <= i < vs.len() && (#[trigger] vs[i]).0@ == voter
}

/// The votes `vs` after `v` came in: the first vote of each voter counts.
pub open spec fn with_vote(vs: Seq<Vote>, v: Vote) -> Seq<Vote> {
    if has_voter(vs, v.0@) {
        vs
    } else {
        vs.push(v)
    }
}

/// The votes `vs` without those of `voter`.
pub open spec fn without_voter(vs: Seq<Vote>, voter: Seq<char>) -> Seq<Vote>
    decreases vs.len(),
{
    if vs.len() == 0 {
        vs
    } else {
        let rest = without_voter(vs.drop_last(), voter);
        if vs.last().0@ == voter {
            rest
        } else {
            rest.push(vs.last())
        }
    }
}

/// A copy of the players.
fn copy_players(ps: &Vec<Player>) -> (r: Vec<Player>)
    ensures
        r@ == ps@,
{
    let mut r: Vec<Player> = Vec::new();
    let mut i: usize = 0;
    while i < ps.len()
        invariant
            i <= ps@.len(),
            r@ == ps@.take(i as int),
        decreases ps@.len() - i,
    {
        r.push(Player { username: ps[i].username.clone(), avatar: ps[i].avatar.clone() });
        assert(r@ =~= ps@.take(i + 1));
        i += 1;
    }
    assert(ps@.take(ps@.len() as int) =~= ps@);
    r
}

/// A copy of the votes.
fn copy_votes(vs: &Vec<Vote>) -> (r: Vec<Vote>)
    ensures
        r@ == vs@,
{
    let mut r: Vec<Vote> = Vec::new();
    let mut i: usize = 0;
    while i < vs.len()
        invariant
            i <= vs@.len(),
            r@ == vs@.take(i as int),
        decreases vs@.len() - i,
    {
        r.push((vs[i].0.clone(), vs[i].1.clone()));
        assert(r@ =~= vs@.take(i + 1));
        i += 1;
    }
    assert(vs@.take(vs@.len() as int) =~= vs@);
    r
}

/// The names of `ps`, as strings, in order.
pub open spec fn usernames(ps: Seq<Player>) -> Seq<String> {
    ps.map_values(|p: Player| p.username)
}

/// No two votes of `vs` come from the same voter.
pub open spec fn distinct_voters(vs: Seq<Vote>) -> bool {
    forall|i: int, j: int|
        0 <= i < vs.len() && 0 <= j < vs.len() && i != j ==> (#[trigger] vs[i]).0@
            != (#[trigger] vs[j]).0@
}

/// Whether each of `es` is the new round's question `p`, the one at position
/// `j` being about `subjects[j]`.
pub open spec fn personalized(p: Prompt, subjects: Seq<String>, es: Seq<ServerEvent>) -> bool {
    &&& es.len() == subjects.len()
    &&& forall|j: int|
        0 <= j < es.len() ==> (#[trigger] es[j] matches ServerEvent::NewRound { question } && presents(
            p,
            subjects[j]@,
            question,
        ))
}

/// Whether `es` sends the question `p` to each of the players `ps`, about a
/// player of a permutation of `ps`.
pub open spec fn questions_for(p: Prompt, ps: Seq<Player>, es: Seq<ServerEvent>) -> bool {
    exists|subjects: Seq<String>|
        subjects.to_multiset() == usernames(ps).to_multiset() && #[trigger] personalized(p, subjects, es)
}

/// The questions of a new round, one per subject in turn.
pub fn personalize(prompt: &Prompt, subjects: &Vec<String>) -> (r: Vec<ServerEvent>)
    ensures
        personalized(*prompt, subjects@, r@),
{
    let mut r: Vec<ServerEvent> = Vec::new();
    let mut i: usize = 0;
    while i < subjects.len()
        invariant
            i <= subjects@.len(),
            personalized(*prompt, subjects@.take(i as int), r@),
        decreases subjects@.len() - i,
    {
        let question = prompt.into_client(subjects[i].as_str());
        r.push(ServerEvent::NewRound { question });
        assert(personalized(*prompt, subjects@.take(i + 1), r@)) by {
            assert forall|j: int| 0 <= j < r@.len() implies (#[trigger] r@[j] matches ServerEvent::NewRound { question } && presents(
                *prompt,
                subjects@.take(i + 1)[j]@,
                question,
            )) by {
                if j < i {
                    assert(subjects@.take(i + 1)[j] == subjects@.take(i as int)[j]);
                }
            }
        }
        i += 1;
    }
    assert(subjects@.take(subjects@.len() as int) =~= subjects@);
    r
}

/// The state of one room.
#[derive(Debug)]
pub struct GameRoom {
    code: String,
    players: Vec<Player>,
    votes: Vec<Vote>,
    step: Step,
    questions: Vec<usize>,
    prompts: Arc<Vec<Prompt>>,
}

/// Whether `e` tells everything about a room: its code, its players and its step.
pub open spec fn is_snapshot(e: ServerEvent, room: GameRoom) -> bool {
    e matches ServerEvent::OnRoomJoin { code, players, step } && code@ == room.code_view()
        && players@ == room.roster() && step == room.step_view()
}

/// Whether `e` lists the players `ps`.
pub open spec fn is_roster_update(e: ServerEvent, ps: Seq<Player>) -> bool {
    e matches ServerEvent::RoomUpdate { players } && players@ == ps
}

/// Whether `after` and the reply `r` are what starting a round from `before`
/// gives: the votes cleared, the next step taken, and the step announced.
pub open spec fn round_started(before: GameRoom, after: GameRoom, r: Reply) -> bool {
    &&& after.same_room(before)
    &&& after.roster() == before.roster()
    &&& after.ballot().len() == 0
    &&& after.step_view() == next_step(before.step_view())
    &&& match after.step_view() {
        Step::Question(i) => r matches Reply::BroadcastEach(es) && questions_for(
            after.prompts_view()[after.plan()[i as int] as int],
            before.roster(),
            es@,
        ),
        Step::Finished => r matches Reply::Broadcast(ServerEvent::GameOver),
        Step::Lobby => r matches Reply::Broadcast(e) && is_snapshot(e, after),
    }
}

/// Whether `after` and the reply `r` are what the vote `v` gives in `before`:
/// the vote counted if its voter has none yet, then the count of votes, or all
/// of them once there are as many as players.
pub open spec fn answered(before: GameRoom, after: GameRoom, v: Vote, r: Reply) -> bool {
    &&& after.same_room(before)
    &&& after.roster() == before.roster()
    &&& after.step_view() == before.step_view()
    &&& after.ballot() == with_vote(before.ballot(), v)
    &&& if after.ballot().len() < after.roster().len() {
        r matches Reply::Broadcast(ServerEvent::RoundUpdate { ready_player_count })
            && ready_player_count == after.ballot().len() as u32
    } else {
        r matches Reply::Broadcast(ServerEvent::RoundOver { votes }) && votes@ == after.ballot()
    }
}

impl GameRoom {
    /// The room's code.
    pub closed spec fn code_view(&self) -> Seq<char> {
        self.code@
    }

    /// The seated players, in the order they came.
    pub closed spec fn roster(&self) -> Seq<Player> {
        self.players@
    }

    /// The votes of the current round, in the order they came.
    pub closed spec fn ballot(&self) -> Seq<Vote> {
        self.votes@
    }

    /// The step the game is at.
    pub closed spec fn step_view(&self) -> Step {
        self.step
    }

    /// The positions in the corpus of the game's questions, in order.
    pub closed spec fn plan(&self) -> Seq<usize> {
        self.questions@
    }

    /// The question corpus.
    pub closed spec fn prompts_view(&self) -> Seq<Prompt> {
        self.prompts@
    }

    /// Same code, plan and corpus as `other`.
    pub open spec fn same_room(&self, other: GameRoom) -> bool {
        &&& self.code_view() == other.code_view()
        &&& self.plan() == other.plan()
        &&& self.prompts_view() == other.prompts_view()
    }

    /// Names and voters are unique, the plan holds the game's number of
    /// distinct questions of the corpus, and a question step is within it.
    pub closed spec fn wf(&self) -> bool {
        &&& distinct_names(self.players@)
        &&& distinct_voters(self.votes@)
        &&& self.questions@.len() == QUESTION_COUNT
        &&& self.questions@.no_duplicates()
        &&& forall|i: int| 0 <= i < self.questions@.len() ==> #[trigger] self.questions@[i] < self.prompts@.len()
        &&& self.step matches Step::Question(i) ==> i < QUESTION_COUNT
    }

    /// A room in the lobby, with no players, whose questions are drawn from
    /// `prompts`.
    pub fn create(code: String, prompts: Arc<Vec<Prompt>>, rng: &mut StdRng) -> (r: GameRoom)
        requires
            prompts@.len() >= QUESTION_COUNT,
        ensures
            r.wf(),
            r.code_view() == code@,
            r.roster().len() == 0,
            r.ballot().len() == 0,
            r.step_view() == Step::Lobby,
            r.prompts_view() == prompts@,
    {
        let questions = sample_below(rng, prompts.len(), QUESTION_COUNT as usize);
        GameRoom { code, players: Vec::new(), votes: Vec::new(), step: Step::Lobby, questions, prompts }
    }

    /// The room's code.
    pub fn code(&self) -> (r: &String)
        ensures
            r@ == self.code_view(),
    {
        &self.code
    }

    /// The seated players.
    pub fn players(&self) -> (r: &Vec<Player>)
        ensures
            r@ == self.roster(),
    {
        &self.players
    }

    /// The votes of the current round.
    pub fn votes(&self) -> (r: &Vec<Vote>)
        ensures
            r@ == self.ballot(),
    {
        &self.votes
    }

    /// The step the game is at.
    pub fn step(&self) -> (r: Step)
        ensures
            r == self.step_view(),
    {
        self.step
    }

    /// Seats `player`, unless a player of that name is seated already.
    pub fn join(&mut self, player: Player) -> (r: Result<(), ErrorMsg>)
        requires
            old(self).wf(),
        ensures
            final(self).wf(),
            final(self).same_room(*old(self)),
            final(self).step_view() == old(self).step_view(),
            final(self).ballot() == old(self).ballot(),
            final(self).roster() == joined(old(self).roster(), player),
            r is Err <==> has_player(old(self).roster(), player.username@),
            r is Err ==> r == Err::<(), ErrorMsg>(ErrorMsg::UsedUsername),
    {
        let mut i: usize = 0;
        while i < self.players.len()
            invariant
                i <= self.players@.len(),
                self.wf(),
                forall|t: int| 0 <= t < i ==> (#[trigger] self.players@[t]).username@ != player.username@,
            decreases self.players@.len() - i,
        {
            if self.players[i].username == player.username {
                return Err(ErrorMsg::UsedUsername);
            }
            i += 1;
        }
        self.players.push(player);
        Ok(())
    }

    /// Counts `vote` unless its voter has voted already this round.
    pub fn record_vote(&mut self, vote: Vote)
        requires
            old(self).wf(),
        ensures
            final(self).wf(),
            final(self).same_room(*old(self)),
            final(self).step_view() == old(self).step_view(),
            final(self).roster() == old(self).roster(),
            final(self).ballot() == with_vote(old(self).ballot(), vote),
    {
        let mut i: usize = 0;
        while i < self.votes.len()
            invariant
                i <= self.votes@.len(),
                self.wf(),
                forall|t: int| 0 <= t < i ==> (#[trigger] self.votes@[t]).0@ != vote.0@,
            decreases self.votes@.len() - i,
        {
            if self.votes[i].0 == vote.0 {
                return;
            }
            i += 1;
        }
        self.votes.push(vote);
    }

    /// The players, for those in the room.
    pub fn room_update(&self) -> (r: ServerEvent)
        ensures
            is_roster_update(r, self.roster()),
    {
        ServerEvent::RoomUpdate { players: copy_players(&self.players) }
    }

    /// Everything about the room, for a client that has just joined.
    pub fn snapshot(&self) -> (r: ServerEvent)
        ensures
            is_snapshot(r, *self),
    {
        ServerEvent::OnRoomJoin { code: self.code.clone(), players: copy_players(&self.players), step: self.step }
    }

    /// The names of the seated players, in order.
    fn names_vec(&self) -> (r: Vec<String>)
        ensures
            r@ == usernames(self.roster()),
    {
        let mut r: Vec<String> = Vec::new();
        let mut i: usize = 0;
        while i < self.players.len()
            invariant
                i <= self.players@.len(),
                r@ == usernames(self.players@.take(i as int)),
            decreases self.players@.len() - i,
        {
            r.push(self.players[i].username.clone());
            assert(r@ =~= usernames(self.players@.take(i + 1)));
            i += 1;
        }
        assert(self.players@.take(self.players@.len() as int) =~= self.players@);
        r
    }

    /// Removes the player named `name` and that player's vote, and returns
    /// the players left, for those still in the room.
    pub fn leave(&mut self, name: &str) -> (r: ServerEvent)
        requires
            old(self).wf(),
        ensures
            final(self).wf(),
            final(self).same_room(*old(self)),
            final(self).step_view() == old(self).step_view(),
            final(self).roster() == without_player(old(self).roster(), name@),
            final(self).ballot() == without_voter(old(self).ballot(), name@),
            is_roster_update(r, final(self).roster()),
    {
        let who = name.to_owned();
        let ghost ps = self.players@;
        let mut kept: Vec<Player> = Vec::new();
        let mut i: usize = 0;
        while i < self.players.len()
            invariant
                ps == self.players@,
                i <= ps.len(),
                kept@ == without_player(ps.take(i as int), who@),
            decreases ps.len() - i,
        {
            assert(ps.take(i + 1).drop_last() =~= ps.take(i as int));
            if self.players[i].username != who {
                kept.push(Player { username: self.players[i].username.clone(), avatar: self.players[i].avatar.clone() });
            }
            i += 1;
        }
        assert(ps.take(ps.len() as int) =~= ps);
        let ghost vs = self.votes@;
        let mut counted: Vec<Vote> = Vec::new();
        let mut j: usize = 0;
        while j < self.votes.len()
            invariant
                vs == self.votes@,
                j <= vs.len(),
                counted@ == without_voter(vs.take(j as int), who@),
            decreases vs.len() - j,
        {
            assert(vs.take(j + 1).drop_last() =~= vs.take(j as int));
            if self.votes[j].0 != who {
                counted.push((self.votes[j].0.clone(), self.votes[j].1.clone()));
            }
            j += 1;
        }
        assert(vs.take(vs.len() as int) =~= vs);
        proof {
            lemma_without_player(ps, who@);
            lemma_without_voter(vs, who@);
        }
        self.players = kept;
        self.votes = counted;
        self.room_update()
    }

    /// Starts the next round: clears the votes and advances the step. At a
    /// question, each player is sent it about a player of a random
    /// permutation of the roster; at the end, the game is over; back in the
    /// lobby, everything about the room is sent again.
    pub fn start_round(&mut self, rng: &mut StdRng) -> (r: Reply)
        requires
            old(self).wf(),
        ensures
            final(self).wf(),
            round_started(*old(self), *final(self), r),
    {
        self.votes = Vec::new();
        let next = self.step.advance();
        match next {
            Step::Question(idx) => {
                let k = self.questions[idx as usize];
                let prompt = &self.prompts[k];
                let mut subjects = self.names_vec();
                assert(subjects@ == usernames(old(self).roster()));
                shuffle(rng, &mut subjects);
                let events = personalize(prompt, &subjects);
                assert(subjects@.to_multiset() == usernames(old(self).roster()).to_multiset());
                assert(personalized(self.prompts_view()[self.plan()[idx as int] as int], subjects@, events@));
                Reply::BroadcastEach(events)
            },
            Step::Finished => Reply::Broadcast(ServerEvent::GameOver),
            Step::Lobby => Reply::Broadcast(self.snapshot()),
        }
    }

    /// Counts `vote` as `record_vote` does, then reports how many have voted,
    /// or, once as many as there are players, every vote.
    pub fn answer(&mut self, vote: Vote) -> (r: Reply)
        requires
            old(self).wf(),
        ensures
            final(self).wf(),
            answered(*old(self), *final(self), vote, r),
    {
        self.record_vote(vote);
        if self.votes.len() < self.players.len() {
            Reply::Broadcast(ServerEvent::RoundUpdate { ready_player_count: self.votes.len() as u32 })
        } else {
            Reply::Broadcast(ServerEvent::RoundOver { votes: copy_votes(&self.votes) })
        }
    }

    /// Handles a message of a client in the room.
    pub fn on_event(&mut self, event: ClientEventGame, rng: &mut StdRng) -> (r: Reply)
        requires
            old(self).wf(),
        ensures
            final(self).wf(),
            match event {
                ClientEventGame::StartRound => round_started(*old(self), *final(self), r),
                ClientEventGame::Answer { vote } => answered(*old(self), *final(self), vote, r),
                ClientEventGame::LeaveRoom => r is ToLobby && *final(self) == *old(self),
            },
    {
        match event {
            ClientEventGame::StartRound => self.start_round(rng),
            ClientEventGame::Answer { vote } => self.answer(vote),
            ClientEventGame::LeaveRoom => Reply::ToLobby,
        }
    }
}

/// What is left of `ps` without `name` comes from `ps`, in order, with
/// distinct names where those of `ps` are.
proof fn lemma_without_player(ps: Seq<Player>, name: Seq<char>)
    ensures
        forall|i: int| 0 <= i < without_player(ps, name).len() ==> ps.contains(#[trigger] without_player(ps, name)[i]),
        distinct_names(ps) ==> distinct_names(without_player(ps, name)),
    decreases ps.len(),
{
    if ps.len() > 0 {
        let init = ps.drop_last();
        lemma_without_player(init, name);
        let rest = without_player(init, name);
        assert forall|i: int| 0 <= i < rest.len() implies ps.contains(#[trigger] rest[i]) by {
            let t = choose|t: int| 0 <= t < init.len() && init[t] == rest[i];
            assert(ps[t] == rest[i]);
        }
        if ps.last().username@ != name {
            let r = rest.push(ps.last());
            assert forall|i: int| 0 <= i < r.len() implies ps.contains(#[trigger] r[i]) by {
                if i < rest.len() {
                    assert(r[i] == rest[i]);
                } else {
                    assert(ps[ps.len() - 1] == r[i]);
                }
            }
            if distinct_names(ps) {
                assert forall|i: int, j: int|
                    0 <= i < r.len() && 0 <= j < r.len() && i != j implies (#[trigger] r[i]).username@
                    != (#[trigger] r[j]).username@ by {
                    if i < rest.len() && j < rest.len() {
                        assert(r[i] == rest[i] && r[j] == rest[j]);
                    } else if i < rest.len() {
                        let t = choose|t: int| 0 <= t < init.len() && init[t] == rest[i];
                        assert(ps[t] == r[i] && ps[ps.len() - 1] == r[j]);
                    } else {
                        let t = choose|t: int| 0 <= t < init.len() && init[t] == rest[j];
                        assert(ps[t] == r[j] && ps[ps.len() - 1] == r[i]);
                    }
                }
            }
        }
    }
}

/// What is left of `vs` without `voter` comes from `vs`, with distinct voters
/// where those of `vs` are.
proof fn lemma_without_voter(vs: Seq<Vote>, voter: Seq<char>)
    ensures
        forall|i: int| 0 <= i < without_voter(vs, voter).len() ==> vs.contains(#[trigger] without_voter(vs, voter)[i]),
        distinct_voters(vs) ==> distinct_voters(without_voter(vs, voter)),
    decreases vs.len(),
{
    if vs.len() > 0 {
        let init = vs.drop_last();
        lemma_without_voter(init, voter);
        let rest = without_voter(init, voter);
        assert forall|i: int| 0 <= i < rest.len() implies vs.contains(#[trigger] rest[i]) by {
            let t = choose|t: int| 0 <= t < init.len() && init[t] == rest[i];
            assert(vs[t] == rest[i]);
        }
        if vs.last().0@ != voter {
            let r = rest.push(vs.last());
            assert forall|i: int| 0 <= i < r.len() implies vs.contains(#[trigger] r[i]) by {
                if i < rest.len() {
                    assert(r[i] == rest[i]);
                } else {
                    assert(vs[vs.len() - 1] == r[i]);
                }
            }
            if distinct_voters(vs) {
                assert forall|i: int, j: int|
                    0 <= i < r.len() && 0 <= j < r.len() && i != j implies (#[trigger] r[i]).0@
                    != (#[trigger] r[j]).0@ by {
                    if i < rest.len() && j < rest.len() {
                        assert(r[i] == rest[i] && r[j] == rest[j]);
                    } else if i < rest.len() {
                        let t = choose|t: int| 0 <= t < init.len() && init[t] == rest[i];
                        assert(vs[t] == r[i] && vs[vs.len() - 1] == r[j]);
                    } else {
                        let t = choose|t: int| 0 <= t < init.len() && init[t] == rest[j];
                        assert(vs[t] == r[j] && vs[vs.len() - 1] == r[i]);
                    }
                }
            }
        }
    }
}

/// The roster after each of `ps` asked to join an empty room, in order.
pub open spec fn joined_all(ps: Seq<Player>) -> Seq<Player>
    decreases ps.len(),
{
    if ps.len() == 0 {
        Seq::empty()
    } else {
        joined(joined_all(ps.drop_last()), ps.last())
    }
}

/// Without a player of that name, removing the name changes nothing.
proof fn lemma_without_absent(ps: Seq<Player>, name: Seq<char>)
    requires
        !has_player(ps, name),
    ensures
        without_player(ps, name) == ps,
    decreases ps.len(),
{
    if ps.len() > 0 {
        let init = ps.drop_last();
        assert(!has_player(init, name)) by {
            if has_player(init, name) {
                let t = choose|t: int| 0 <= t < init.len() && (#[trigger] init[t]).username@ == name;
                assert(ps[t] == init[t]);
            }
        }
        lemma_without_absent(init, name);
        assert(ps[ps.len() - 1] == ps.last());
        assert(init.push(ps.last()) =~= ps);
    }
}

/// When players of distinct names join an empty room in order, the roster is
/// those players in that order; when the one at position `j` then leaves, the
/// roster is the others, in the order they came.
pub proof fn lemma_join_then_leave(ps: Seq<Player>, j: int)
    requires
        distinct_names(ps),
        0 <= j < ps.len(),
    ensures
        joined_all(ps) == ps,
        without_player(joined_all(ps), ps[j].username@) == ps.remove(j),
    decreases ps.len(),
{
    lemma_joined_all(ps);
    let init = ps.drop_last();
    let name = ps[j].username@;
    assert(distinct_names(init));
    if j == ps.len() - 1 {
        assert(!has_player(init, name)) by {
            if has_player(init, name) {
                let t = choose|t: int| 0 <= t < init.len() && (#[trigger] init[t]).username@ == name;
                assert(ps[t] == init[t]);
            }
        }
        lemma_without_absent(init, name);
        assert(ps.remove(j) =~= init);
    } else {
        lemma_join_then_leave(init, j);
        lemma_joined_all(init);
        assert(init[j] == ps[j]);
        assert(ps.last().username@ != name);
        assert(ps.remove(j) =~= init.remove(j).push(ps.last()));
    }
}

/// Players of distinct names, joining in order, are all seated in that order.
proof fn lemma_joined_all(ps: Seq<Player>)
    requires
        distinct_names(ps),
    ensures
        joined_all(ps) == ps,
    decreases ps.len(),
{
    if ps.len() > 0 {
        let init = ps.drop_last();
        assert(distinct_names(init));
        lemma_joined_all(init);
        assert(!has_player(init, ps.last().username@)) by {
            if has_player(init, ps.last().username@) {
                let t = choose|t: int| 0 <= t < init.len() && (#[trigger] init[t]).username@ == ps.last().username@;
                assert(ps[t] == init[t]);
                assert(ps[ps.len() - 1] == ps.last());
            }
        }
        assert(init.push(ps.last()) =~= ps);
    }
}

/// A second vote of a voter in the same round is dropped: the votes grow by
/// at most one, and the first choice stands.
pub proof fn lemma_vote_idempotent(vs: Seq<Vote>, first: Vote, second: Vote)
    requires
        first.0@ == second.0@,
    ensures
        with_vote(with_vote(vs, first), second) == with_vote(vs, first),
        with_vote(vs, first).len() <= vs.len() + 1,
{
    let once = with_vote(vs, first);
    if !has_voter(vs, first.0@) {
        assert(once[vs.len() as int] == first);
    }
    assert(has_voter(once, second.0@));
}

} // verus!
