use rand::Rng;
use vstd::prelude::*;
use vstd::set_lib::{lemma_int_range, lemma_len_subset, lemma_map_size_bound, set_int_range};

use crate::board::{click_post, first_click_result, toggle_post, Board, BoardError, GameState};
use crate::grid::in_grid;
use crate::view::{all_hidden, create_empty_board_response, serialize_board, shows, TileView};

verus! {

/// The length of a session identifier.
pub const ID_LEN: usize = 8;

/// How many identifiers are drawn at random before a deterministic search.
pub const ID_ATTEMPTS: usize = 16;

pub open spec fn is_alnum(c: char) -> bool {
    ('A' <= c && c <= 'Z') || ('a' <= c && c <= 'z') || ('0' <= c && c <= '9')
}

/// Relies on rand's `Alphanumeric` distribution, sampled through
/// `thread_rng()`: `len` characters, each from A-Z, a-z and 0-9.
#[verifier::external_body]
fn random_id(len: usize) -> (r: String)
    ensures
        r@.len() == len,
        forall|i: int| 0 <= i < len ==> is_alnum(#[trigger] r@[i]),
{
    rand::thread_rng().sample_iter(&rand::distributions::Alphanumeric).take(len).map(char::from).collect()
}


/// The digit that an identifier character stands for in base 62: `0-9`,
/// then `A-Z`, then `a-z`.
pub open spec fn char_digit(c: char) -> int {
    let v = c as u32 as int;
    if 48 <= v <= 57 {
        v - 48
    } else if 65 <= v <= 90 {
        v - 55
    } else if 97 <= v <= 122 {
        v - 61
    } else {
        0
    }
}

/// The character for a base-62 digit.
fn digit_char(d: u8) -> (c: char)
    requires
        d < 62,
    ensures
        is_alnum(c),
        char_digit(c) == d,
{
    if d < 10 {
        (48 + d) as char
    } else if d < 36 {
        (55 + d) as char
    } else {
        (61 + d) as char
    }
}


pub open spec fn pow62(n: nat) -> int
    decreases n,
{
    if n == 0 {
        1
    } else {
        62 * pow62((n - 1) as nat)
    }
}

/// The number an identifier spells in base 62, least significant character
/// first.
pub open spec fn id_value(s: Seq<char>) -> int
    decreases s.len(),
{
    if s.len() == 0 {
        0
    } else {
        id_value(s.drop_last()) + char_digit(s.last()) * pow62((s.len() - 1) as nat)
    }
}

/// The number of distinct identifiers.
pub const ID_SPACE: u64 = 218340105584896;

/// Relies on std's `String: FromIterator<&char>`: the string of the
/// characters in order.
#[verifier::external_body]
fn string_from_chars(cs: &Vec<char>) -> (r: String)
    ensures
        r@ == cs@,
{
    cs.iter().collect()
}

/// The identifier that spells `k` in base 62.
fn encode_id(k: u64) -> (r: String)
    requires
        k < ID_SPACE,
    ensures
        r@.len() == ID_LEN,
        forall|i: int| 0 <= i < ID_LEN ==> is_alnum(#[trigger] r@[i]),
        id_value(r@) == k,
{
    proof {
        assert(pow62(0) == 1);
        assert(pow62(1) == 62);
        assert(pow62(2) == 3844);
        assert(pow62(3) == 238328);
        assert(pow62(4) == 14776336);
        assert(pow62(5) == 916132832);
        assert(pow62(6) == 56800235584);
        assert(pow62(7) == 3521614606208);
        assert(pow62(8) == ID_SPACE);
    }
    let mut cs: Vec<char> = Vec::new();
    let mut v: u64 = k;
    let mut i: usize = 0;
    while i < ID_LEN
        invariant
            i <= ID_LEN,
            cs@.len() == i,
            forall|j: int| 0 <= j < i ==> is_alnum(#[trigger] cs@[j]),
            k == v * pow62(i as nat) + id_value(cs@),
            id_value(cs@) >= 0,
            pow62(i as nat) >= 1,
            k < pow62(8),
        decreases ID_LEN - i,
    {
        let d = (v % 62) as u8;
        let c = digit_char(d);
        let ghost p = pow62(i as nat);
        let ghost old_cs = cs@;
        cs.push(c);
        let q = v / 62;
        proof {
            assert(cs@.drop_last() =~= old_cs);
            assert(id_value(cs@) == id_value(old_cs) + d * p);
            assert(pow62((i + 1) as nat) == 62 * p);
            assert(v == q * 62 + d);
            assert(v * p == q * (62 * p) + d * p) by (nonlinear_arith)
                requires
                    v == q * 62 + d,
            ;
            assert(d * p >= 0) by (nonlinear_arith)
                requires
                    d >= 0,
                    p >= 1,
            ;
        }
        v = q;
        i = i + 1;
    }
    proof {
        let p = pow62(8);
        if v >= 1 {
            assert(v * p >= p) by (nonlinear_arith)
                requires
                    v >= 1,
                    p >= 1,
            ;
        }
    }
    string_from_chars(&cs)
}

/// One game: still waiting for its first click, or under way.
pub enum Session {
    Pending { size: usize, mine_count: usize },
    Active(Board),
}

/// The size and mine count are a valid configuration.
pub open spec fn config_ok(size: int, mine_count: int) -> bool {
    size > 0 && size * size <= usize::MAX && mine_count < size * size
}

pub open spec fn session_ok(s: Session) -> bool {
    match s {
        Session::Pending { size, mine_count } => config_ok(size as int, mine_count as int),
        Session::Active(b) => b.wf(),
    }
}

/// What a client sees of a session.
pub struct GameView {
    pub size: usize,
    pub mine_count: usize,
    pub state: GameState,
    pub board: Vec<Vec<TileView>>,
}

/// The answer to a click or a flag toggle: its result and the board after it.
pub struct ActionOutcome {
    pub result: Result<(), BoardError>,
    pub state: GameState,
    pub board: Vec<Vec<TileView>>,
}

/// Sessions by identifier.
pub struct Registry {
    entries: Vec<(String, Session)>,
}

impl Registry {
    /// Identifiers are distinct and every session is consistent.
    pub closed spec fn wf(&self) -> bool {
        &&& forall|i: int, j: int|
            0 <= i < j < self.entries@.len() ==> (#[trigger] self.entries@[i]).0@ != (
            #[trigger] self.entries@[j]).0@
        &&& forall|i: int| 0 <= i < self.entries@.len() ==> session_ok(#[trigger] self.entries@[i].1)
    }

    /// A session is stored under `id`.
    pub closed spec fn has(&self, id: Seq<char>) -> bool {
        exists|i: int| 0 <= i < self.entries@.len() && (#[trigger] self.entries@[i]).0@ == id
    }

    /// The session stored under `id`.
    pub closed spec fn session(&self, id: Seq<char>) -> Session {
        let i = choose|i: int| 0 <= i < self.entries@.len() && (#[trigger] self.entries@[i]).0@ == id;
        self.entries@[i].1
    }

    /// `after` holds what `self` holds, except that `id` now maps to `s`.
    pub open spec fn updated(&self, after: Registry, id: Seq<char>, s: Session) -> bool {
        &&& after.has(id)
        &&& after.session(id) == s
        &&& forall|o: Seq<char>|
            o != id ==> (#[trigger] after.has(o) == self.has(o)) && (self.has(o) ==> after.session(o)
                == self.session(o))
    }

    pub fn new() -> (r: Registry)
        ensures
            r.wf(),
            r.count() == 0,
            forall|id: Seq<char>| !(#[trigger] r.has(id)),
    {
        Registry { entries: Vec::new() }
    }

    /// The index of the entry for `id`.
    fn find(&self, id: &String) -> (r: Option<usize>)
        requires
            self.wf(),
        ensures
            r is None <==> !self.has(id@),
            r matches Some(i) ==> i < self.entries@.len() && self.entries@[i as int].0@ == id@
                && self.session(id@) == self.entries@[i as int].1,
    {
        let mut i: usize = 0;
        while i < self.entries.len()
            invariant
                self.wf(),
                i <= self.entries@.len(),
                forall|j: int| 0 <= j < i ==> (#[trigger] self.entries@[j]).0@ != id@,
            decreases self.entries@.len() - i,
        {
            if self.entries[i].0 == *id {
                proof {
                    let k = choose|k: int| 0 <= k < self.entries@.len() && (#[trigger] self.entries@[k]).0@ == id@;
                    assert(k == i as int) by {
                        if k != i as int {
                            assert(self.entries@[k].0@ == self.entries@[i as int].0@);
                        }
                    }
                }
                return Some(i);
            }
            i = i + 1;
        }
        None
    }

    /// Replaces the session of entry `i`, handing back the one it held.
    fn swap_session(&mut self, i: usize, s: Session) -> (prev: Session)
        requires
            old(self).wf(),
            i < old(self).entries@.len(),
            session_ok(s),
        ensures
            final(self).wf(),
            prev == old(self).entries@[i as int].1,
            final(self).entries@.len() == old(self).entries@.len(),
            final(self).entries@[i as int].0@ == old(self).entries@[i as int].0@,
            old(self).updated(*final(self), old(self).entries@[i as int].0@, s),
    {
        let (id, prev) = self.entries.remove(i);
        self.entries.insert(i, (id, s));
        proof {
            let e0 = old(self).entries@;
            let e1 = self.entries@;
            assert(e1 =~= e0.update(i as int, (e0[i as int].0, s)));
            let key = e0[i as int].0@;
            assert(self.has(key)) by {
                assert(e1[i as int].0@ == key);
            }
            let k = choose|k: int| 0 <= k < e1.len() && (#[trigger] e1[k]).0@ == key;
            assert(k == i as int) by {
                if k != i as int {
                    assert(e0[k].0@ == e0[i as int].0@);
                }
            }
            assert forall|o: Seq<char>| o != key implies (#[trigger] self.has(o) == old(self).has(o)) && (old(self).has(o)
                ==> self.session(o) == old(self).session(o)) by {
                if old(self).has(o) {
                    let j = choose|j: int| 0 <= j < e0.len() && (#[trigger] e0[j]).0@ == o;
                    assert(e1[j] == e0[j]);
                }
                if self.has(o) {
                    let j = choose|j: int| 0 <= j < e1.len() && (#[trigger] e1[j]).0@ == o;
                    assert(e1[j] == e0[j]);
                }
            }
            assert forall|a: int, b: int| 0 <= a < b < e1.len() implies (#[trigger] e1[a]).0@ != (#[trigger] e1[b]).0@ by {
                assert(e1[a].0@ == e0[a].0@ && e1[b].0@ == e0[b].0@);
            }
            assert forall|a: int| 0 <= a < e1.len() implies session_ok(#[trigger] e1[a].1) by {
                if a != i {
                    assert(e1[a] == e0[a]);
                }
            }
        }
        prev
    }

    /// Adds a session under a new identifier.
    fn add(&mut self, id: String, s: Session)
        requires
            old(self).wf(),
            !old(self).has(id@),
            session_ok(s),
        ensures
            final(self).wf(),
            old(self).updated(*final(self), id@, s),
            final(self).count() == old(self).count() + 1,
    {
        let ghost key = id@;
        self.entries.push((id, s));
        proof {
            let e0 = old(self).entries@;
            let e1 = self.entries@;
            let last = e0.len() as int;
            assert(e1[last].0@ == key);
            assert(self.has(key));
            let k = choose|k: int| 0 <= k < e1.len() && (#[trigger] e1[k]).0@ == key;
            assert(k == last) by {
                if k != last {
                    assert(e0[k] == e1[k]);
                    assert(old(self).has(key));
                }
            }
            assert forall|i: int, j: int| 0 <= i < j < e1.len() implies (#[trigger] e1[i]).0@ != (#[trigger] e1[j]).0@ by {
                if j == last {
                    assert(e0[i] == e1[i]);
                    if e1[i].0@ == key {
                        assert(old(self).has(key));
                    }
                } else {
                    assert(e0[i] == e1[i] && e0[j] == e1[j]);
                }
            }
            assert forall|i: int| 0 <= i < e1.len() implies session_ok(#[trigger] e1[i].1) by {
                if i < last {
                    assert(e0[i] == e1[i]);
                }
            }
            assert forall|o: Seq<char>| o != key implies (#[trigger] self.has(o) == old(self).has(o)) && (old(self).has(o)
                ==> self.session(o) == old(self).session(o)) by {
                if old(self).has(o) {
                    let j = choose|j: int| 0 <= j < e0.len() && (#[trigger] e0[j]).0@ == o;
                    assert(e1[j] == e0[j]);
                }
                if self.has(o) {
                    let j = choose|j: int| 0 <= j < e1.len() && (#[trigger] e1[j]).0@ == o;
                    assert(e1[j] == e0[j]);
                    let j2 = choose|j: int| 0 <= j < e0.len() && (#[trigger] e0[j]).0@ == o;
                    assert(e1[j2] == e0[j2]);
                }
            }
        }
    }

    /// Some session's identifier spells `j` in base 62.
    spec fn value_taken(&self, j: int) -> bool {
        exists|i: int| 0 <= i < self.entries@.len() && #[trigger] id_value(self.entries@[i].0@) == j
    }

    /// The number of sessions.
    pub closed spec fn count(&self) -> int {
        self.entries@.len() as int
    }

    /// Draws identifiers at random until one is unused; should every draw
    /// collide, tries the identifiers spelling 0, 1, 2, ... in base 62, of
    /// which one among the first `count() + 1` is unused. `None` only when
    /// every identifier is taken.
    fn fresh_id(&self) -> (r: Option<String>)
        requires
            self.wf(),
        ensures
            r matches Some(id) ==> !self.has(id@) && id@.len() == ID_LEN && forall|i: int|
                0 <= i < ID_LEN ==> is_alnum(#[trigger] id@[i]),
            self.count() < ID_SPACE ==> r is Some,
    {
        let mut attempt: usize = 0;
        while attempt < ID_ATTEMPTS
            invariant
                self.wf(),
            decreases ID_ATTEMPTS - attempt,
        {
            let id = random_id(ID_LEN);
            if self.find(&id).is_none() {
                return Some(id);
            }
            attempt = attempt + 1;
        }
        let n = self.entries.len();
        if n as u64 >= ID_SPACE {
            return None;
        }
        let mut k: u64 = 0;
        while k <= n as u64
            invariant
                self.wf(),
                n == self.entries@.len(),
                n < ID_SPACE,
                k <= n + 1,
                forall|j: int| 0 <= j < k ==> #[trigger] self.value_taken(j),
            decreases n + 1 - k,
        {
            let id = encode_id(k);
            match self.find(&id) {
                None => {
                    return Some(id);
                },
                Some(i) => {
                    assert(id_value(self.entries@[i as int].0@) == k);
                    assert(self.value_taken(k as int));
                },
            }
            k = k + 1;
        }
        proof {
            let f = |i: int| id_value(self.entries@[i].0@);
            let x = set_int_range(0, n as int);
            let z = set_int_range(0, n + 1);
            lemma_int_range(0, n as int);
            lemma_int_range(0, n + 1);
            let y = x.map(f);
            lemma_map_size_bound(x, y, f);
            assert forall|j: int| z.contains(j) implies y.contains(j) by {
                assert(self.value_taken(j));
                let i = choose|i: int| 0 <= i < n && #[trigger] id_value(self.entries@[i].0@) == j;
                assert(x.contains(i) && f(i) == j);
            }
            lemma_len_subset(z, y);
        }
        None
    }

    /// Creates a session whose mines are placed on its first click.
    pub fn create_deferred(&mut self, size: usize, mine_count: usize) -> (r: Result<String, BoardError>)
        requires
            old(self).wf(),
        ensures
            final(self).wf(),
            !config_ok(size as int, mine_count as int) ==> r == Err::<String, BoardError>(
                BoardError::InvalidConfig,
            ),
            r is Err ==> *final(self) == *old(self),
            r is Err ==> r == Err::<String, BoardError>(BoardError::InvalidConfig) || r == Err::<
                String,
                BoardError,
            >(BoardError::IdUnavailable),
            r == Err::<String, BoardError>(BoardError::IdUnavailable) ==> config_ok(size as int, mine_count as int),
            r == Err::<String, BoardError>(BoardError::InvalidConfig) ==> !config_ok(size as int, mine_count as int),
            config_ok(size as int, mine_count as int) && old(self).count() < ID_SPACE ==> r is Ok,
            r matches Ok(id) ==> {
                &&& config_ok(size as int, mine_count as int)
                &&& !old(self).has(id@)
                &&& id@.len() == ID_LEN
                &&& forall|i: int| 0 <= i < ID_LEN ==> is_alnum(#[trigger] id@[i])
                &&& old(self).updated(*final(self), id@, Session::Pending { size, mine_count })
                &&& final(self).count() == old(self).count() + 1
            },
    {
        if !Registry::valid_config(size, mine_count) {
            return Err(BoardError::InvalidConfig);
        }
        match self.fresh_id() {
            Some(id) => {
                let key = id.clone();
                self.add(key, Session::Pending { size, mine_count });
                Ok(id)
            },
            None => Err(BoardError::IdUnavailable),
        }
    }

    /// Checks `config_ok` without overflow.
    pub fn valid_config(size: usize, mine_count: usize) -> (r: bool)
        ensures
            r == config_ok(size as int, mine_count as int),
    {
        if size == 0 {
            return false;
        }
        match size.checked_mul(size) {
            Some(cells) => mine_count < cells,
            None => false,
        }
    }

    /// Creates a session with mines placed at once, anywhere on the grid.
    pub fn create_immediate(&mut self, size: usize, mine_count: usize) -> (r: Result<(String, GameView), BoardError>)
        requires
            old(self).wf(),
        ensures
            final(self).wf(),
            !config_ok(size as int, mine_count as int) ==> r == Err::<(String, GameView), BoardError>(
                BoardError::InvalidConfig,
            ),
            r is Err ==> *final(self) == *old(self),
            r is Err ==> r == Err::<(String, GameView), BoardError>(BoardError::InvalidConfig) || r == Err::<
                (String, GameView),
                BoardError,
            >(BoardError::IdUnavailable),
            r == Err::<(String, GameView), BoardError>(BoardError::InvalidConfig) ==> !config_ok(
                size as int,
                mine_count as int,
            ),
            config_ok(size as int, mine_count as int) && old(self).count() < ID_SPACE ==> r is Ok,
            r matches Ok((id, v)) ==> {
                &&& config_ok(size as int, mine_count as int)
                &&& !old(self).has(id@)
                &&& id@.len() == ID_LEN
                &&& forall|i: int| 0 <= i < ID_LEN ==> is_alnum(#[trigger] id@[i])
                &&& final(self).session(id@) matches Session::Active(b) && {
                    &&& b.wf()
                    &&& b.size_spec() == size
                    &&& b.mine_count_spec() == mine_count
                    &&& b.state_spec() == GameState::InProgress
                    &&& old(self).updated(*final(self), id@, Session::Active(b))
                    &&& forall|x: int, y: int|
                        in_grid(size as int, x, y) ==> !(#[trigger] b.tile_spec(x, y)).exposed
                            && !b.tile_spec(x, y).flagged
                    &&& shows(v.board@, b)
                }
                &&& final(self).count() == old(self).count() + 1
                &&& v.size == size
                &&& v.mine_count == mine_count
                &&& v.state == GameState::InProgress
            },
    {
        if !Registry::valid_config(size, mine_count) {
            return Err(BoardError::InvalidConfig);
        }
        let id = match self.fresh_id() {
            Some(id) => id,
            None => { return Err(BoardError::IdUnavailable); },
        };
        let b = match Board::new_random(size, mine_count) {
            Ok(b) => b,
            Err(e) => { return Err(e); },
        };
        let board = serialize_board(&b);
        let key = id.clone();
        self.add(key, Session::Active(b));
        Ok((id, GameView { size, mine_count, state: GameState::InProgress, board }))
    }

    /// What a client sees of the session `id`.
    pub fn game_view(&self, id: &String) -> (r: Result<GameView, BoardError>)
        requires
            self.wf(),
        ensures
            !self.has(id@) ==> r == Err::<GameView, BoardError>(BoardError::NotFound),
            self.has(id@) ==> r is Ok,
            r matches Ok(v) ==> match self.session(id@) {
                Session::Pending { size, mine_count } => v.size == size && v.mine_count == mine_count
                    && v.state == GameState::InProgress && all_hidden(v.board@, size as int),
                Session::Active(b) => v.size == b.size_spec() && v.mine_count == b.mine_count_spec()
                    && v.state == b.state_spec() && shows(v.board@, b),
            },
    {
        match self.find(id) {
            None => Err(BoardError::NotFound),
            Some(i) => {
                match &self.entries[i].1 {
                    Session::Pending { size, mine_count } => Ok(
                        GameView {
                            size: *size,
                            mine_count: *mine_count,
                            state: GameState::InProgress,
                            board: create_empty_board_response(*size),
                        },
                    ),
                    Session::Active(b) => {
                        proof {
                            assert(session_ok(self.entries@[i as int].1));
                        }
                        Ok(
                            GameView {
                                size: b.size(),
                                mine_count: b.mine_count(),
                                state: b.state(),
                                board: serialize_board(b),
                            },
                        )
                    },
                }
            },
        }
    }

    /// Clicks `(x, y)` in the session `id`; the first click of a pending
    /// session places its mines away from that tile.
    pub fn click_tile(&mut self, id: &String, x: usize, y: usize) -> (r: Result<ActionOutcome, BoardError>)
        requires
            old(self).wf(),
        ensures
            final(self).wf(),
            !old(self).has(id@) ==> r == Err::<ActionOutcome, BoardError>(BoardError::NotFound)
                && *final(self) == *old(self),
            old(self).has(id@) ==> r is Ok,
            r matches Ok(o) ==> match old(self).session(id@) {
                Session::Pending { size, mine_count } => if in_grid(size as int, x as int, y as int) {
                    &&& o.result is Ok
                    &&& final(self).session(id@) matches Session::Active(b) && {
                        &&& old(self).updated(*final(self), id@, Session::Active(b))
                        &&& b.wf()
                        &&& first_click_result(b, x as int, y as int)
                        &&& b.size_spec() == size
                        &&& b.mine_count_spec() == mine_count
                        &&& b.state_spec() != GameState::Lost
                        &&& !b.tile_spec(x as int, y as int).is_mine
                        &&& b.tile_spec(x as int, y as int).exposed
                        &&& o.state == b.state_spec()
                        &&& shows(o.board@, b)
                    }
                } else {
                    &&& o.result == Err::<(), BoardError>(BoardError::OutOfBounds)
                    &&& old(self).updated(*final(self), id@, old(self).session(id@))
                    &&& o.state == GameState::InProgress
                    &&& all_hidden(o.board@, size as int)
                },
                Session::Active(b0) => final(self).session(id@) matches Session::Active(b) && {
                    &&& old(self).updated(*final(self), id@, Session::Active(b))
                    &&& click_post(b0, b, x as int, y as int, o.result)
                    &&& o.state == b.state_spec()
                    &&& shows(o.board@, b)
                },
            },
    {
        let i = match self.find(id) {
            None => { return Err(BoardError::NotFound); },
            Some(i) => i,
        };
        let ghost before = *self;
        let sess = self.swap_session(i, Session::Pending { size: 1, mine_count: 0 });
        let ghost mid = *self;
        proof {
            assert(session_ok(before.entries@[i as int].1));
        }
        let (next, outcome) = match sess {
            Session::Pending { size, mine_count } => {
                match Board::new_with_first_click(size, mine_count, (x, y)) {
                    Ok(b) => {
                        let board = serialize_board(&b);
                        let state = b.state();
                        (Session::Active(b), ActionOutcome { result: Ok(()), state, board })
                    },
                    Err(e) => {
                        let board = create_empty_board_response(size);
                        (
                            Session::Pending { size, mine_count },
                            ActionOutcome { result: Err(e), state: GameState::InProgress, board },
                        )
                    },
                }
            },
            Session::Active(mut b) => {
                let result = b.click_tile(x, y);
                let board = serialize_board(&b);
                let state = b.state();
                (Session::Active(b), ActionOutcome { result, state, board })
            },
        };
        self.swap_session(i, next);
        proof {
            assert(mid.entries@[i as int].0@ == id@);
            assert(before.updated(*self, id@, next));
        }
        Ok(outcome)
    }

    /// Toggles the flag at `(x, y)` in the session `id`; a session still
    /// waiting for its first click refuses.
    pub fn toggle_flag(&mut self, id: &String, x: usize, y: usize) -> (r: Result<ActionOutcome, BoardError>)
        requires
            old(self).wf(),
        ensures
            final(self).wf(),
            !old(self).has(id@) ==> r == Err::<ActionOutcome, BoardError>(BoardError::NotFound)
                && *final(self) == *old(self),
            old(self).has(id@) ==> r is Ok,
            r matches Ok(o) ==> match old(self).session(id@) {
                Session::Pending { size, mine_count } => {
                    &&& o.result == Err::<(), BoardError>(BoardError::GameNotStarted)
                    &&& old(self).updated(*final(self), id@, old(self).session(id@))
                    &&& o.state == GameState::InProgress
                    &&& all_hidden(o.board@, size as int)
                },
                Session::Active(b0) => final(self).session(id@) matches Session::Active(b) && {
                    &&& old(self).updated(*final(self), id@, Session::Active(b))
                    &&& toggle_post(b0, b, x as int, y as int, o.result)
                    &&& o.state == b.state_spec()
                    &&& shows(o.board@, b)
                },
            },
    {
        let i = match self.find(id) {
            None => { return Err(BoardError::NotFound); },
            Some(i) => i,
        };
        let ghost before = *self;
        let sess = self.swap_session(i, Session::Pending { size: 1, mine_count: 0 });
        let ghost mid = *self;
        proof {
            assert(session_ok(before.entries@[i as int].1));
        }
        let (next, outcome) = match sess {
            Session::Pending { size, mine_count } => {
                let board = create_empty_board_response(size);
                (
                    Session::Pending { size, mine_count },
                    ActionOutcome { result: Err(BoardError::GameNotStarted), state: GameState::InProgress, board },
                )
            },
            Session::Active(mut b) => {
                let result = b.toggle_flag(x, y);
                let board = serialize_board(&b);
                let state = b.state();
                (Session::Active(b), ActionOutcome { result, state, board })
            },
        };
        self.swap_session(i, next);
        proof {
            assert(mid.entries@[i as int].0@ == id@);
            assert(before.updated(*self, id@, next));
        }
        Ok(outcome)
    }

    /// Every stored session is consistent: an active one holds a well-formed
    /// board, a pending one a valid configuration.
    pub proof fn lemma_session_ok(&self, id: Seq<char>)
        requires
            self.wf(),
            self.has(id),
        ensures
            session_ok(self.session(id)),
    {
    }

    /// The session `id` is still waiting for its first click.
    pub fn is_pending(&self, id: &String) -> (r: bool)
        requires
            self.wf(),
        ensures
            r == (self.has(id@) && self.session(id@) is Pending),
    {
        match self.find(id) {
            None => false,
            Some(i) => match &self.entries[i].1 {
                Session::Pending { .. } => true,
                Session::Active(_) => false,
            },
        }
    }
}

} // verus!
