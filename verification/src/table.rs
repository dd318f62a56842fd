//! The stats ledger: an insertion-ordered collection of named entries with
//! accumulated goal and assist totals, at most one entry per name.

use vstd::prelude::*;
use vstd::slice::slice_subrange;
use vstd::string::StrSliceExecFns;

use crate::input_fsm::{Command, CommandModel};
use crate::parse::{all_digits, digits_val, join_sp, join_words, parse_u32, split_tokens,
    split_ws, toks_view};

verus! {

/// One ledger row: a player's name and running totals.
pub struct StatsTableEntry {
    pub name: String,
    pub goals: u32,
    pub assists: u32,
}

impl StatsTableEntry {
    /// An entry never carries an empty name.
    pub open spec fn wf(&self) -> bool {
        self.name@.len() > 0
    }

    pub fn from(name: &str, goals: u32, assists: u32) -> (r: Option<StatsTableEntry>)
        ensures
            name@.len() == 0 ==> r is None,
            name@.len() > 0 ==> (r matches Some(e) && e.name@ == name@ && e.goals == goals
                && e.assists == assists && e.wf()),
    {
        if !name.is_empty() {
            let name = name.to_owned();
            Some(StatsTableEntry { name, goals, assists })
        } else {
            None
        }
    }

    pub fn from_command(command: Command) -> (r: Option<StatsTableEntry>)
        ensures
            command@ matches CommandModel::Add(n, g, a) ==> ((n.len() > 0 ==> (r matches Some(e)
                && e.name@ == n && e.goals == g && e.assists == a && e.wf())) && (n.len() == 0
                ==> r is None)),
            command@ matches CommandModel::Delete(n) ==> r is None,
    {
        if let Command::Add(name, goals, assists) = command {
            if !name.as_str().is_empty() {
                Some(StatsTableEntry { name, goals, assists })
            } else {
                None
            }
        } else {
            None
        }
    }

    /// Reads an entry out of a line of the shape `<name> <goals> <assists>`;
    /// tokens past the third are ignored.
    pub fn parse(entry: String) -> (r: Option<StatsTableEntry>)
        ensures
            ({
                let toks = split_ws(entry@);
                if toks.len() >= 3 && toks[1].len() >= 1 && all_digits(toks[1]) && digits_val(
                    toks[1],
                ) <= u32::MAX && toks[2].len() >= 1 && all_digits(toks[2]) && digits_val(toks[2])
                    <= u32::MAX {
                    r matches Some(e) && e.name@ == toks[0] && e.goals == digits_val(toks[1])
                        && e.assists == digits_val(toks[2])
                } else {
                    r is None
                }
            }),
    {
        let s: &str = entry.as_str();
        let n: usize = s.unicode_len();
        let mut chars: Vec<char> = Vec::new();
        let mut i: usize = 0;
        while i < n
            invariant
                0 <= i <= n,
                n == s@.len(),
                chars@ == s@.take(i as int),
            decreases n - i,
        {
            chars.push(s.get_char(i));
            proof {
                assert(chars@ =~= s@.take(i as int + 1));
            }
            i = i + 1;
        }
        proof {
            assert(chars@ =~= entry@);
        }
        let toks = split_tokens(&chars);
        if toks.len() < 3 {
            return None;
        }
        let goals = parse_u32(&toks[1]);
        let assists = parse_u32(&toks[2]);
        match (goals, assists) {
            (Some(g), Some(a)) => {
                let name = join_words(&toks, 0, 1);
                proof {
                    let tv = toks_view(toks@);
                    assert(tv.subrange(0, 1) =~= seq![tv[0]]);
                    assert(join_sp(seq![tv[0]]) == tv[0]);
                }
                Some(StatsTableEntry { name, goals: g, assists: a })
            },
            _ => None,
        }
    }

    pub fn name(&self) -> (r: &String)
        ensures
            r@ == self.name@,
    {
        &self.name
    }
}

/// An existing entry with the given totals folded in; the name stays.
pub open spec fn merged_add(e: StatsTableEntry, goals: u32, assists: u32) -> StatsTableEntry {
    StatsTableEntry {
        name: e.name,
        goals: (e.goals + goals) as u32,
        assists: (e.assists + assists) as u32,
    }
}

/// No entry of `s` is named `n`.
pub open spec fn no_entry_named(s: Seq<StatsTableEntry>, n: Seq<char>) -> bool {
    forall|i: int| 0 <= i < s.len() ==> (#[trigger] s[i]).name@ != n
}

/// Folding `g` and `a` into the entry named `n` stays within `u32`.
pub open spec fn add_fits(s: Seq<StatsTableEntry>, n: Seq<char>, g: u32, a: u32) -> bool {
    forall|i: int|
        0 <= i < s.len() && (#[trigger] s[i]).name@ == n ==> s[i].goals + g <= u32::MAX
            && s[i].assists + a <= u32::MAX
}

/// How `Add(n, g, a)` turns `pre` into `post`: accumulate into the entry
/// named `n` where one exists, else append a fresh entry at the end.
pub open spec fn added_spec(
    pre: Seq<StatsTableEntry>,
    post: Seq<StatsTableEntry>,
    n: Seq<char>,
    g: u32,
    a: u32,
) -> bool {
    &&& (no_entry_named(pre, n) ==> post.len() == pre.len() + 1 && post.take(pre.len() as int)
        == pre && post.last().name@ == n && post.last().goals == g && post.last().assists == a)
    &&& (forall|i: int|
        0 <= i < pre.len() && (#[trigger] pre[i]).name@ == n ==> post == pre.update(
            i,
            merged_add(pre[i], g, a),
        ))
}

/// How `Delete(n)` turns `pre` into `post`: drop the entry named `n`, and
/// change nothing when there is none.
pub open spec fn deleted_spec(
    pre: Seq<StatsTableEntry>,
    post: Seq<StatsTableEntry>,
    n: Seq<char>,
) -> bool {
    &&& (no_entry_named(pre, n) ==> post == pre)
    &&& (forall|i: int|
        0 <= i < pre.len() && (#[trigger] pre[i]).name@ == n ==> post == pre.remove(i))
}

/// The ledger.
pub struct StatsTable {
    pub entries: Vec<StatsTableEntry>,
}

impl StatsTable {
    /// Names are pairwise distinct and never empty.
    pub open spec fn wf(&self) -> bool {
        &&& forall|i: int| 0 <= i < self.entries@.len() ==> (#[trigger] self.entries@[i]).wf()
        &&& forall|i: int, j: int|
            0 <= i < j < self.entries@.len() ==> self.entries@[i].name@ != self.entries@[j].name@
    }

    pub fn new() -> (t: StatsTable)
        ensures
            t.entries@.len() == 0,
            t.wf(),
    {
        StatsTable { entries: Vec::new() }
    }

    /// Folds `data` into the entry of the same name, or appends it.
    pub fn push(&mut self, data: StatsTableEntry)
        requires
            old(self).wf(),
            data.wf(),
            add_fits(old(self).entries@, data.name@, data.goals, data.assists),
        ensures
            final(self).wf(),
            added_spec(
                old(self).entries@,
                final(self).entries@,
                data.name@,
                data.goals,
                data.assists,
            ),
    {
        let n = self.entries.len();
        let mut i: usize = 0;
        while i < n
            invariant
                0 <= i <= n,
                n == self.entries@.len(),
                *self == *old(self),
                old(self).wf(),
                data.wf(),
                add_fits(old(self).entries@, data.name@, data.goals, data.assists),
                forall|j: int| 0 <= j < i ==> (#[trigger] self.entries@[j]).name@ != data.name@,
            decreases n - i,
        {
            if self.entries[i].name == data.name {
                proof {
                    assert(old(self).entries@[i as int].name@ == data.name@);
                    assert(old(self).entries@[i as int].goals + data.goals <= u32::MAX);
                }
                let e = &mut self.entries[i];
                e.goals = e.goals + data.goals;
                e.assists = e.assists + data.assists;
                proof {
                    let pre = old(self).entries@;
                    let post = self.entries@;
                    assert(post == pre.update(
                        i as int,
                        merged_add(pre[i as int], data.goals, data.assists),
                    ));
                    assert forall|p: int, q: int| 0 <= p < q < post.len() implies post[p].name@
                        != post[q].name@ by {
                        assert(pre[p].name@ != pre[q].name@);
                        assert(post[p].name@ == pre[p].name@);
                        assert(post[q].name@ == pre[q].name@);
                    }
                    assert forall|p: int| 0 <= p < post.len() implies (#[trigger] post[p]).wf() by {
                        assert(pre[p].wf());
                        assert(post[p].name@ == pre[p].name@);
                    }
                    assert forall|i2: int|
                        0 <= i2 < pre.len() && (#[trigger] pre[i2]).name@ == data.name@ implies post
                        == pre.update(
                        i2,
                        merged_add(pre[i2], data.goals, data.assists),
                    ) by {
                        if i2 < i as int {
                            assert(pre[i2].name@ != pre[i as int].name@);
                        }
                        if i2 > i as int {
                            assert(pre[i as int].name@ != pre[i2].name@);
                        }
                    }
                }
                return ;
            }
            i = i + 1;
        }
        self.entries.push(data);
        proof {
            let pre = old(self).entries@;
            let post = self.entries@;
            assert(post.take(pre.len() as int) =~= pre);
            assert forall|p: int, q: int| 0 <= p < q < post.len() implies post[p].name@
                != post[q].name@ by {
                if q < pre.len() {
                    assert(pre[p].name@ != pre[q].name@);
                } else {
                    assert(post[q] == data);
                    assert(pre[p].name@ != data.name@);
                }
            }
            assert forall|p: int| 0 <= p < post.len() implies (#[trigger] post[p]).wf() by {
                if p < pre.len() {
                    assert(pre[p].wf());
                } else {
                    assert(post[p] == data);
                }
            }
        }
    }

    /// Removes the entry of the given name, if any.
    pub fn remove(&mut self, name: String)
        requires
            old(self).wf(),
        ensures
            final(self).wf(),
            deleted_spec(old(self).entries@, final(self).entries@, name@),
    {
        let n = self.entries.len();
        let mut i: usize = 0;
        while i < n
            invariant
                0 <= i <= n,
                n == self.entries@.len(),
                *self == *old(self),
                old(self).wf(),
                forall|j: int| 0 <= j < i ==> (#[trigger] self.entries@[j]).name@ != name@,
            decreases n - i,
        {
            if self.entries[i].name == name {
                proof {
                    assert(old(self).entries@[i as int].name@ == name@);
                }
                let _ = self.entries.remove(i);
                proof {
                    let pre = old(self).entries@;
                    let post = self.entries@;
                    assert(post == pre.remove(i as int));
                    assert forall|p: int, q: int| 0 <= p < q < post.len() implies post[p].name@
                        != post[q].name@ by {
                        let p0: int = if p < i as int {
                            p
                        } else {
                            p + 1
                        };
                        let q0: int = if q < i as int {
                            q
                        } else {
                            q + 1
                        };
                        assert(post[p] == pre[p0]);
                        assert(post[q] == pre[q0]);
                        assert(pre[p0].name@ != pre[q0].name@);
                    }
                    assert forall|p: int| 0 <= p < post.len() implies (#[trigger] post[p]).wf() by {
                        let p0: int = if p < i as int {
                            p
                        } else {
                            p + 1
                        };
                        assert(post[p] == pre[p0]);
                        assert(pre[p0].wf());
                    }
                    assert forall|i2: int|
                        0 <= i2 < pre.len() && (#[trigger] pre[i2]).name@ == name@ implies post
                        == pre.remove(i2) by {
                        if i2 < i as int {
                            assert(pre[i2].name@ != pre[i as int].name@);
                        }
                        if i2 > i as int {
                            assert(pre[i as int].name@ != pre[i2].name@);
                        }
                    }
                }
                return ;
            }
            i = i + 1;
        }
    }

    /// Applies a completed command: `Add` accumulates or appends, `Delete`
    /// removes by exact name.
    pub fn execute_command(&mut self, command: Command)
        requires
            old(self).wf(),
            command@ matches CommandModel::Add(n, g, a) ==> n.len() > 0 && add_fits(
                old(self).entries@,
                n,
                g,
                a,
            ),
        ensures
            final(self).wf(),
            command@ matches CommandModel::Add(n, g, a) ==> added_spec(
                old(self).entries@,
                final(self).entries@,
                n,
                g,
                a,
            ),
            command@ matches CommandModel::Delete(n) ==> deleted_spec(
                old(self).entries@,
                final(self).entries@,
                n,
            ),
    {
        match command {
            Command::Add(name, goals, assists) => {
                let data = StatsTableEntry { name, goals, assists };
                self.push(data);
            },
            Command::Delete(name) => {
                self.remove(name);
            },
        }
    }

    /// The first `min(n, count)` entries, in insertion order.
    pub fn top_n(&self, n: usize) -> (r: &[StatsTableEntry])
        ensures
            n >= self.entries@.len() ==> r@ == self.entries@,
            n < self.entries@.len() ==> r@ == self.entries@.take(n as int),
    {
        let m: usize = if n < self.entries.len() {
            n
        } else {
            self.entries.len()
        };
        let r = slice_subrange(self.entries.as_slice(), 0, m);
        proof {
            assert(self.entries@.subrange(0, m as int) =~= self.entries@.take(m as int));
            if n >= self.entries@.len() {
                assert(self.entries@.take(m as int) =~= self.entries@);
            }
        }
        r
    }

    pub fn entries(&self) -> (r: &Vec<StatsTableEntry>)
        ensures
            r@ == self.entries@,
    {
        &self.entries
    }
}

} // verus!
