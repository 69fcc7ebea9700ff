//! The lobby: where clients look for rooms, open them and join them.

use std::sync::Arc;
use rand::rngs::StdRng;
use vstd::prelude::*;
use vstd::set_lib::lemma_len_subset;
use vstd::string::StrSliceExecFns;
use crate::game::{ErrorMsg, GameRoom, Prompt, Step, QUESTION_COUNT};
use crate::id_gen::{generate_code, is_code_char, FunnyWords};
use crate::registry::Registry;

verus! {

/// Number of characters of a room code.
pub const CODE_LENGTH: usize = 8;

/// Entropy of room codes, in thousandths: low, for pronounceable codes.
pub const CODE_ENTROPY: u16 = 100;

/// Random codes drawn before the free codes are searched in order.
pub const CODE_DRAWS: u32 = 64;

/// Number of distinct room codes: 36 to the power of the code length.
pub const CODE_SPACE: u64 = 2821109907456;

/// Whether `s` is a room code: its length, of letters and digits.
pub open spec fn is_code(s: Seq<char>) -> bool {
    &&& s.len() == CODE_LENGTH
    &&& forall|i: int| 0 <= i < s.len() ==> is_code_char(#[trigger] s[i])
}

/// 36 to the power `n`.
pub open spec fn pow36(n: nat) -> nat
    decreases n,
{
    if n == 0 {
        1
    } else {
        36 * pow36((n - 1) as nat)
    }
}

/// The code character of the base-36 digit `d`: `0-9`, then `A-Z`.
pub open spec fn digit_char(d: nat) -> char {
    if d < 10 {
        ((48 + d) as u8) as char
    } else {
        ((55 + d) as u8) as char
    }
}

/// `i` written with `len` base-36 digits, the last `len` ones of `i`.
pub open spec fn numbered_code(i: nat, len: nat) -> Seq<char>
    decreases len,
{
    if len == 0 {
        Seq::empty()
    } else {
        numbered_code(i / 36, (len - 1) as nat).push(digit_char(i % 36))
    }
}

/// The code character of a base-36 digit.
fn digit(d: u64) -> (r: char)
    requires
        d < 36,
    ensures
        r == digit_char(d as nat),
{
    if d < 10 {
        ((48 + d) as u8) as char
    } else {
        ((55 + d) as u8) as char
    }
}

/// `i` written with `len` base-36 digits.
fn numbered(i: u64, len: usize) -> (r: String)
    ensures
        r@ == numbered_code(i as nat, len as nat),
    decreases len,
{
    if len == 0 {
        String::new()
    } else {
        let mut s = numbered(i / 36, len - 1);
        s.push(digit(i % 36));
        s
    }
}

proof fn lemma_digit_char(a: nat, b: nat)
    requires
        a < 36,
        b < 36,
    ensures
        is_code_char(digit_char(a)),
        digit_char(a) == digit_char(b) ==> a == b,
{
}

proof fn lemma_numbered_is_code(i: nat, len: nat)
    ensures
        numbered_code(i, len).len() == len,
        forall|t: int| 0 <= t < len ==> is_code_char(#[trigger] numbered_code(i, len)[t]),
    decreases len,
{
    if len > 0 {
        lemma_numbered_is_code(i / 36, (len - 1) as nat);
        lemma_digit_char(i % 36, 0);
    }
}

/// Below `36^len`, distinct numbers are written differently.
proof fn lemma_numbered_injective(i: nat, j: nat, len: nat)
    requires
        i < pow36(len),
        j < pow36(len),
        numbered_code(i, len) == numbered_code(j, len),
    ensures
        i == j,
    decreases len,
{
    if len > 0 {
        let a = numbered_code(i / 36, (len - 1) as nat);
        let b = numbered_code(j / 36, (len - 1) as nat);
        assert(numbered_code(i, len).drop_last() =~= a);
        assert(numbered_code(j, len).drop_last() =~= b);
        assert(numbered_code(i, len).last() == digit_char(i % 36));
        assert(numbered_code(j, len).last() == digit_char(j % 36));
        lemma_digit_char(i % 36, j % 36);
        let p = pow36((len - 1) as nat);
        assert(i / 36 < p) by (nonlinear_arith)
            requires
                i < 36 * p,
        ;
        assert(j / 36 < p) by (nonlinear_arith)
            requires
                j < 36 * p,
        ;
        lemma_numbered_injective(i / 36, j / 36, (len - 1) as nat);
    }
}

/// Whether registering `handle` under `code` in the rooms `before` is
/// accepted as `accepted` and leaves the rooms `after`: it is accepted when
/// `code` has the length of a code and no room has it, and then records it.
pub open spec fn registration<H>(
    before: Map<Seq<char>, H>,
    code: Seq<char>,
    handle: H,
    accepted: bool,
    after: Map<Seq<char>, H>,
) -> bool {
    &&& accepted == (code.len() == CODE_LENGTH && !before.contains_key(code))
    &&& after == if accepted {
        before.insert(code, handle)
    } else {
        before
    }
}

/// A code is never given to two rooms: once a registration under a code has
/// been accepted, a later one under the same code is refused, whatever
/// registrations came between, as long as no room was pruned.
pub proof fn lemma_code_held_once<H>(
    rooms: Seq<Map<Seq<char>, H>>,
    codes: Seq<Seq<char>>,
    handles: Seq<H>,
    accepted: Seq<bool>,
    i: int,
    j: int,
)
    requires
        rooms.len() == codes.len() + 1,
        handles.len() == codes.len(),
        accepted.len() == codes.len(),
        forall|t: int| 0 <= t < codes.len() ==> #[trigger] registration(rooms[t], codes[t], handles[t], accepted[t], rooms[t + 1]),
        no_pruning(rooms),
        0 <= i < j < codes.len(),
        codes[i] == codes[j],
        accepted[i],
    ensures
        !accepted[j],
{
    assert(registration(rooms[i], codes[i], handles[i], accepted[i], rooms[i + 1]));
    assert(rooms[i + 1].contains_key(codes[i]));
    lemma_rooms_grow(rooms, i + 1, j);
    assert(registration(rooms[j], codes[j], handles[j], accepted[j], rooms[j + 1]));
}

/// Each step of `rooms` keeps every code of the step before.
pub open spec fn no_pruning<H>(rooms: Seq<Map<Seq<char>, H>>) -> bool {
    forall|t: int, k: Seq<char>| 0 <= t < rooms.len() - 1 && #[trigger] rooms[t].contains_key(k) ==> #[trigger] rooms[t + 1].contains_key(k)
}

/// Without pruning, a code once held stays held.
proof fn lemma_rooms_grow<H>(rooms: Seq<Map<Seq<char>, H>>, a: int, b: int)
    requires
        no_pruning(rooms),
        0 <= a <= b < rooms.len(),
    ensures
        forall|k: Seq<char>| rooms[a].contains_key(k) ==> rooms[b].contains_key(k),
    decreases b - a,
{
    if a < b {
        lemma_rooms_grow(rooms, a, b - 1);
        assert forall|k: Seq<char>| rooms[b - 1].contains_key(k) implies rooms[b].contains_key(k) by {
            assert(rooms[b - 1].contains_key(k) ==> rooms[(b - 1) + 1].contains_key(k));
        }
    }
}

/// The lobby: the word model for codes, the question corpus, and the live
/// rooms, each reached by a handle of type `H`.
#[derive(Debug)]
pub struct Lobby<H> {
    funny_words: FunnyWords,
    questions: Arc<Vec<Prompt>>,
    rooms: Registry<H>,
    rng: StdRng,
}

/// Relies on `Arc::clone`: another handle on the same value.
#[verifier::external_body]
fn share<T>(a: &Arc<T>) -> (r: Arc<T>)
    ensures
        r == *a,
{
    Arc::clone(a)
}

impl<H> Lobby<H> {
    /// The live rooms, by code.
    pub closed spec fn rooms_view(&self) -> Map<Seq<char>, H> {
        self.rooms@
    }

    /// The word model that codes are drawn from.
    pub closed spec fn words_view(&self) -> Seq<Seq<Option<char>>> {
        self.funny_words@
    }

    /// The question corpus.
    pub closed spec fn questions_view(&self) -> Seq<Prompt> {
        self.questions@
    }

    /// The model and the registry are well formed, every registered code has
    /// the length of a code, and there are questions enough for a game.
    pub closed spec fn wf(&self) -> bool {
        &&& self.funny_words.wf()
        &&& self.rooms.wf()
        &&& forall|k: Seq<char>| #[trigger] self.rooms@.contains_key(k) ==> k.len() == CODE_LENGTH
        &&& self.questions@.len() >= QUESTION_COUNT
    }

    /// A lobby with no room.
    pub fn new(funny_words: FunnyWords, questions: Vec<Prompt>, rng: StdRng) -> (r: Self)
        requires
            funny_words.wf(),
            questions@.len() >= QUESTION_COUNT,
        ensures
            r.wf(),
            r.rooms_view() == Map::<Seq<char>, H>::empty(),
            r.words_view() == funny_words@,
            r.questions_view() == questions@,
    {
        Lobby { funny_words, questions: Arc::new(questions), rooms: Registry::new(), rng }
    }

    /// The live rooms.
    pub fn rooms(&self) -> (r: &Registry<H>)
        requires
            self.wf(),
        ensures
            r.wf(),
            r@ == self.rooms_view(),
    {
        &self.rooms
    }

    /// The first code, in base-36 order, that no room has.
    fn free_code(&self) -> (r: String)
        requires
            self.wf(),
            self.rooms_view().len() < CODE_SPACE,
        ensures
            is_code(r@),
            !self.rooms_view().contains_key(r@),
    {
        let n = self.rooms.len();
        let mut i: u64 = 0;
        let ghost mut seen = Set::<Seq<char>>::empty();
        assert(pow36(CODE_LENGTH as nat) == CODE_SPACE) by {
            reveal_with_fuel(pow36, 9);
        }
        while i <= n as u64
            invariant
                self.wf(),
                n == self.rooms_view().len(),
                n < CODE_SPACE,
                pow36(CODE_LENGTH as nat) == CODE_SPACE,
                self.rooms_view().dom().finite(),
                i <= n + 1,
                seen.finite(),
                seen.len() == i,
                seen.subset_of(self.rooms_view().dom()),
                forall|x: Seq<char>| #[trigger] seen.contains(x) ==> exists|k: nat| k < i && x == numbered_code(k, CODE_LENGTH as nat),
            decreases n + 1 - i,
        {
            let code = numbered(i, CODE_LENGTH);
            if !self.rooms.contains(code.as_str()) {
                proof {
                    lemma_numbered_is_code(i as nat, CODE_LENGTH as nat);
                }
                return code;
            }
            proof {
                if seen.contains(code@) {
                    let k = choose|k: nat| k < i && code@ == numbered_code(k, CODE_LENGTH as nat);
                    lemma_numbered_injective(k, i as nat, CODE_LENGTH as nat);
                }
                seen = seen.insert(code@);
            }
            i += 1;
        }
        proof {
            lemma_len_subset(seen, self.rooms_view().dom());
        }
        numbered(0, CODE_LENGTH)
    }

    /// A code that no room has. Codes are drawn from the word model, with
    /// low entropy; should a number of draws all be taken, the first free
    /// code in base-36 order is taken instead.
    pub fn fresh_code(&mut self) -> (r: String)
        requires
            old(self).wf(),
            old(self).rooms_view().len() < CODE_SPACE,
        ensures
            final(self).wf(),
            final(self).rooms_view() == old(self).rooms_view(),
            final(self).words_view() == old(self).words_view(),
            final(self).questions_view() == old(self).questions_view(),
            is_code(r@),
            !final(self).rooms_view().contains_key(r@),
    {
        let mut attempt: u32 = 0;
        while attempt < CODE_DRAWS
            invariant
                self.wf(),
                self.rooms_view() == old(self).rooms_view(),
                self.words_view() == old(self).words_view(),
                self.questions_view() == old(self).questions_view(),
            decreases CODE_DRAWS - attempt,
        {
            let code = generate_code(&self.funny_words, CODE_ENTROPY, CODE_LENGTH, &mut self.rng);
            if !self.rooms.contains(code.as_str()) {
                return code;
            }
            attempt += 1;
        }
        self.free_code()
    }

    /// A new room in the lobby step, with no players, under a code that no
    /// room has. The room is not registered: see `register`.
    pub fn open_room(&mut self) -> (r: GameRoom)
        requires
            old(self).wf(),
            old(self).rooms_view().len() < CODE_SPACE,
        ensures
            final(self).wf(),
            final(self).rooms_view() == old(self).rooms_view(),
            final(self).words_view() == old(self).words_view(),
            final(self).questions_view() == old(self).questions_view(),
            r.wf(),
            is_code(r.code_view()),
            !final(self).rooms_view().contains_key(r.code_view()),
            r.roster().len() == 0,
            r.ballot().len() == 0,
            r.step_view() == Step::Lobby,
            r.prompts_view() == final(self).questions_view(),
    {
        let code = self.fresh_code();
        GameRoom::create(code, share(&self.questions), &mut self.rng)
    }

    /// Records `handle` under `code`, unless `code` has not the length of a
    /// code or a room has it; says whether it did.
    pub fn register(&mut self, code: String, handle: H) -> (r: bool)
        requires
            old(self).wf(),
        ensures
            final(self).wf(),
            registration(old(self).rooms_view(), code@, handle, r, final(self).rooms_view()),
            final(self).words_view() == old(self).words_view(),
            final(self).questions_view() == old(self).questions_view(),
    {
        if code.as_str().unicode_len() != CODE_LENGTH {
            return false;
        }
        self.rooms.register(code, handle)
    }

    /// Forgets the room of code `code`, once its handle no longer reaches it.
    pub fn prune(&mut self, code: &str)
        requires
            old(self).wf(),
        ensures
            final(self).wf(),
            final(self).rooms_view() == old(self).rooms_view().remove(code@),
            final(self).words_view() == old(self).words_view(),
            final(self).questions_view() == old(self).questions_view(),
    {
        self.rooms.prune(code)
    }

    /// The handle of the room of code `code`, if there is one.
    pub fn probe(&self, code: &str) -> (r: Option<&H>)
        requires
            self.wf(),
        ensures
            r is None <==> !self.rooms_view().contains_key(code@),
            r matches Some(h) ==> *h == self.rooms_view()[code@],
    {
        self.rooms.find(code)
    }

    /// Where a client asking to join goes: an error for an empty name, a new
    /// room (`None`) where no code is given, else the room of that code, or
    /// an error where no room has it.
    pub fn join_target(&self, username: &str, code: Option<&str>) -> (r: Result<Option<&H>, ErrorMsg>)
        requires
            self.wf(),
        ensures
            username@.len() == 0 ==> r == Err::<Option<&H>, ErrorMsg>(ErrorMsg::EmptyUsername),
            username@.len() > 0 ==> match code {
                None => r == Ok::<Option<&H>, ErrorMsg>(None),
                Some(c) => if self.rooms_view().contains_key(c@) {
                    r matches Ok(Some(h)) && *h == self.rooms_view()[c@]
                } else {
                    r == Err::<Option<&H>, ErrorMsg>(ErrorMsg::RoomNotFound)
                },
            },
    {
        if username.is_empty() {
            return Err(ErrorMsg::EmptyUsername);
        }
        match code {
            None => Ok(None),
            Some(c) => {
                if c.unicode_len() != CODE_LENGTH {
                    return Err(ErrorMsg::RoomNotFound);
                }
                match self.rooms.find(c) {
                    Some(h) => Ok(Some(h)),
                    None => Err(ErrorMsg::RoomNotFound),
                }
            },
        }
    }
}

} // verus!
