//! The in-memory key/value store and the dispatcher that runs commands on it.
use vstd::prelude::*;
use crate::wire::{str_eq, Command, ResponseCode};

verus! {

/// Text-keyed map of text values; keys are unique and order is irrelevant.
pub struct KvStore {
    entries: Vec<(String, String)>,
    contents: Ghost<Map<Seq<char>, Seq<char>>>,
}

impl View for KvStore {
    type V = Map<Seq<char>, Seq<char>>;

    closed spec fn view(&self) -> Map<Seq<char>, Seq<char>> {
        self.contents@
    }
}

impl KvStore {
    /// The entries hold each key once, and exactly the pairs of the map.
    pub closed spec fn wf(&self) -> bool {
        let e = self.entries@;
        let m = self.contents@;
        &&& forall|i: int|
            0 <= i < e.len() ==> #[trigger] m.contains_key(e[i].0@) && m[e[i].0@] == e[i].1@
        &&& forall|k: Seq<char>|
            #[trigger] m.contains_key(k) ==> exists|i: int| 0 <= i < e.len() && e[i].0@ == k
        &&& forall|i: int, j: int| 0 <= i < e.len() && 0 <= j < e.len() && i != j ==> e[i].0@ != e[j].0@
    }

    pub fn new() -> (r: KvStore)
        ensures
            r.wf(),
            r@ == Map::<Seq<char>, Seq<char>>::empty(),
    {
        KvStore { entries: Vec::new(), contents: Ghost(Map::empty()) }
    }

    /// Where `key` is held.
    fn find(&self, key: &str) -> (r: Option<usize>)
        requires
            self.wf(),
        ensures
            r.is_some() <==> self@.contains_key(key@),
            r.is_some() ==> r.unwrap() < self.entries@.len() && self.entries@[r.unwrap() as int].0@
                == key@,
    {
        let mut i: usize = 0;
        while i < self.entries.len()
            invariant
                self.wf(),
                i <= self.entries@.len(),
                forall|j: int| 0 <= j < i ==> self.entries@[j].0@ != key@,
            decreases self.entries@.len() - i,
        {
            if str_eq(self.entries[i].0.as_str(), key) {
                return Some(i);
            }
            i = i + 1;
        }
        None
    }

    /// The value held under `key`.
    pub fn get(&self, key: &str) -> (r: Option<&String>)
        requires
            self.wf(),
        ensures
            r.is_some() <==> self@.contains_key(key@),
            r.is_some() ==> r.unwrap()@ == self@[key@],
    {
        match self.find(key) {
            Some(i) => Some(&self.entries[i].1),
            None => None,
        }
    }

    /// Inserts `value` under `key`, replacing what was there.
    pub fn set(&mut self, key: &str, value: &str)
        requires
            old(self).wf(),
        ensures
            final(self).wf(),
            final(self)@ == old(self)@.insert(key@, value@),
    {
        let ghost m = self.contents@.insert(key@, value@);
        let ghost mut at: int = 0;
        match self.find(key) {
            Some(i) => {
                self.entries[i] = (key.to_owned(), value.to_owned());
                proof {
                    at = i as int;
                }
            },
            None => {
                self.entries.push((key.to_owned(), value.to_owned()));
                proof {
                    at = self.entries@.len() - 1;
                }
            },
        }
        self.contents = Ghost(m);
        assert forall|k: Seq<char>| #[trigger] m.contains_key(k) implies exists|i: int|
            0 <= i < self.entries@.len() && self.entries@[i].0@ == k by {
            if k != key@ {
                let j = choose|j: int| 0 <= j < old(self).entries@.len() && old(self).entries@[j].0@ == k;
                assert(self.entries@[j].0@ == k);
            } else {
                assert(self.entries@[at].0@ == k);
            }
        }
    }

    /// Removes `key`, if present.
    pub fn del(&mut self, key: &str)
        requires
            old(self).wf(),
        ensures
            final(self).wf(),
            final(self)@ == old(self)@.remove(key@),
    {
        let ghost m = self.contents@.remove(key@);
        match self.find(key) {
            Some(i) => {
                let ghost e = self.entries@;
                self.entries.swap_remove(i);
                self.contents = Ghost(m);
                assert forall|k: Seq<char>| #[trigger] m.contains_key(k) implies exists|j: int|
                    0 <= j < self.entries@.len() && self.entries@[j].0@ == k by {
                    let j = choose|j: int| 0 <= j < e.len() && e[j].0@ == k;
                    if j == e.len() - 1 {
                        assert(self.entries@[i as int].0@ == k);
                    } else {
                        assert(self.entries@[j].0@ == k);
                    }
                }
            },
            None => {
                assert(m =~= self.contents@);
            },
        }
    }
}

/// The diagnostic text sent back for a request that cannot be served.
pub open spec fn failure_text() -> Seq<char> {
    "Cannot parse command!"@
}

/// What running the argument vector `args` on the map `m` answers and leaves:
/// the response code, the response text, and the new map.
pub open spec fn apply_args(args: Seq<Seq<char>>, m: Map<Seq<char>, Seq<char>>) -> (
    ResponseCode,
    Seq<char>,
    Map<Seq<char>, Seq<char>>,
) {
    if args.len() == 2 && args[0] == "get"@ {
        if m.contains_key(args[1]) {
            (ResponseCode::Success, m[args[1]], m)
        } else {
            (ResponseCode::Nonexistent, Seq::empty(), m)
        }
    } else if args.len() == 3 && args[0] == "set"@ {
        (ResponseCode::Success, Seq::empty(), m.insert(args[1], args[2]))
    } else if args.len() == 2 && args[0] == "del"@ {
        (ResponseCode::Success, Seq::empty(), m.remove(args[1]))
    } else {
        (ResponseCode::Error, failure_text(), m)
    }
}

/// Runs a command on the store: `get` answers the value or `Nonexistent`,
/// `set` inserts or overwrites, `del` removes; the last two always succeed.
pub fn dispatch(cmd: &Command, kv: &mut KvStore) -> (r: (ResponseCode, String))
    requires
        old(kv).wf(),
    ensures
        final(kv).wf(),
        r.0 == apply_args(cmd.args(), old(kv)@).0,
        r.1@ == apply_args(cmd.args(), old(kv)@).1,
        final(kv)@ == apply_args(cmd.args(), old(kv)@).2,
{
    proof {
        lemma_command_words_differ();
    }
    match cmd {
        Command::Get(c) => match kv.get(c.key) {
            Some(v) => (ResponseCode::Success, v.clone()),
            None => (ResponseCode::Nonexistent, String::new()),
        },
        Command::Put(c) => {
            kv.set(c.key, c.value);
            (ResponseCode::Success, String::new())
        },
        Command::Del(c) => {
            kv.del(c.key);
            (ResponseCode::Success, String::new())
        },
    }
}

/// Deleting always succeeds, a key just deleted is absent, and the last of
/// two writes to a key is what a read of it answers.
pub proof fn lemma_store_idempotence(
    m: Map<Seq<char>, Seq<char>>,
    k: Seq<char>,
    v1: Seq<char>,
    v2: Seq<char>,
)
    ensures
        apply_args(seq!["del"@, k], m).0 == ResponseCode::Success,
        apply_args(seq!["del"@, k], apply_args(seq!["del"@, k], m).2).0 == ResponseCode::Success,
        apply_args(seq!["get"@, k], apply_args(seq!["del"@, k], m).2).0
            == ResponseCode::Nonexistent,
        apply_args(seq!["get"@, k], apply_args(seq!["del"@, k], m).2).1 == Seq::<char>::empty(),
        ({
            let m1 = apply_args(seq!["set"@, k, v1], m).2;
            let m2 = apply_args(seq!["set"@, k, v2], m1).2;
            &&& apply_args(seq!["get"@, k], m2).0 == ResponseCode::Success
            &&& apply_args(seq!["get"@, k], m2).1 == v2
        }),
{
    lemma_command_words_differ();
}

/// The three command words are distinct.
pub proof fn lemma_command_words_differ()
    ensures
        "get"@ != "set"@,
        "get"@ != "del"@,
        "set"@ != "del"@,
{
    reveal_strlit("get");
    reveal_strlit("set");
    reveal_strlit("del");
    assert("get"@[0] == 'g');
    assert("set"@[0] == 's');
    assert("del"@[0] == 'd');
}

} // verus!
