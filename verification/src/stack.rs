//! The persistent navigation stack.
//!
//! The stack is conceptually on-disk state: each invocation of the tool
//! reconstructs it from the backing file's bytes (`load`), performs at most
//! one mutation (`push`, `try_pop`, or `try_pop_until`), and persists the
//! result (`encode` for a rewrite, or one appended record for a push). The
//! calling binary owns the file itself and hands the bytes in and out.
//!
//! Known limitation, on purpose: nothing locks the backing file, so two
//! concurrent invocations race on it with last-writer-wins semantics. The
//! design accepts this; only append atomicity is relied upon, and a
//! truncated trailing record is ignored on the next load.

use vstd::prelude::*;
use crate::codec::{
    encode_entry, append_bytes, parse_records, spec_encode_stack, spec_parse_records,
    lemma_parse_records_wf, lemma_parse_records_of_encode, lemma_encode_stack_push,
};
use crate::entry::{Entry, EntryModel, entries_view, entry_wf, path_wf};
use crate::errors::NavError;

verus! {

/// Identifiers strictly increase from the bottom of the stack to the top.
pub open spec fn ids_increasing(es: Seq<EntryModel>) -> bool {
    forall|i: int, j: int| 0 <= i < j < es.len() ==> es[i].id < es[j].id
}

/// Well-formed stack: every entry is well-formed and the identifiers
/// strictly increase, so no two entries share one.
pub open spec fn stack_wf(es: Seq<EntryModel>) -> bool {
    ids_increasing(es) && forall|k: int| 0 <= k < es.len() ==> entry_wf(#[trigger] es[k])
}

/// What loading the backing file yields: the complete records in order when
/// they all parse and their identifiers strictly increase, nothing
/// otherwise. A trailing partial record is ignored.
pub open spec fn spec_load(data: Seq<u8>) -> Option<Seq<EntryModel>> {
    match spec_parse_records(data) {
        Some(es) => if ids_increasing(es) {
            Some(es)
        } else {
            None
        },
        None => None,
    }
}

/// The identifier `push` assigns next: one above the top entry's, or 1 on an
/// empty stack.
pub open spec fn spec_next_id(es: Seq<EntryModel>) -> int {
    if es.len() == 0 {
        1
    } else {
        es.last().id + 1
    }
}

/// Some entry of `es` carries identifier `id`.
pub open spec fn has_id(es: Seq<EntryModel>, id: u64) -> bool {
    exists|i: int| 0 <= i < es.len() && es[i].id == id
}

/// The position of the entry carrying `id` (meaningful when `has_id`; unique
/// on a well-formed stack).
pub open spec fn id_index(es: Seq<EntryModel>, id: u64) -> int {
    choose|i: int| 0 <= i < es.len() && es[i].id == id
}

/// Model of one push: the new entry takes the next identifier.
pub open spec fn spec_push(es: Seq<EntryModel>, path: Seq<u8>, timestamp: u64) -> Seq<EntryModel> {
    es.push(EntryModel { id: spec_next_id(es) as u64, timestamp: timestamp, path: path })
}

/// Model of pushing a sequence of paths in order, with their timestamps.
pub open spec fn spec_push_all(
    es: Seq<EntryModel>,
    paths: Seq<Seq<u8>>,
    tss: Seq<u64>,
) -> Seq<EntryModel>
    decreases paths.len(),
{
    if paths.len() == 0 {
        es
    } else {
        spec_push_all(spec_push(es, paths[0], tss[0]), paths.skip(1), tss.skip(1))
    }
}

/// Persistent LIFO store of navigation entries, reconstructed from and
/// rendered back to the bytes of its backing file.
pub struct Cache {
    entries: Vec<Entry>,
}

impl View for Cache {
    type V = Seq<EntryModel>;

    closed spec fn view(&self) -> Seq<EntryModel> {
        entries_view(self.entries@)
    }
}

/// On a well-formed stack the entry carrying a present identifier is unique,
/// so `id_index` names the one position it occupies.
pub proof fn lemma_id_index(es: Seq<EntryModel>, id: u64)
    requires
        stack_wf(es),
        has_id(es, id),
    ensures
        0 <= id_index(es, id) < es.len(),
        es[id_index(es, id)].id == id,
        forall|k: int| 0 <= k < es.len() && es[k].id == id ==> k == id_index(es, id),
{
    let i = id_index(es, id);
    assert(0 <= i < es.len() && es[i].id == id);
    assert forall|k: int| 0 <= k < es.len() && es[k].id == id implies k == i by {
        if k < i {
            assert(es[k].id < es[i].id);
        } else if k > i {
            assert(es[i].id < es[k].id);
        }
    };
}

impl Cache {
    pub open spec fn wf(&self) -> bool {
        stack_wf(self@)
    }

    /// An empty navigation stack.
    pub fn new() -> (c: Cache)
        ensures
            c@ == Seq::<EntryModel>::empty(),
            c.wf(),
    {
        let c = Cache { entries: Vec::new() };
        proof {
            assert(c@ =~= Seq::<EntryModel>::empty());
        }
        c
    }

    /// Reconstructs the stack from the bytes of the backing file. Every
    /// complete record must parse and the identifiers must strictly
    /// increase; otherwise the whole file is reported corrupt rather than
    /// silently losing entries. A trailing partial record is ignored.
    pub fn load(data: &[u8]) -> (r: Result<Cache, NavError>)
        ensures
            spec_load(data@) is Some ==> r is Ok && r->Ok_0@ == spec_load(data@)->0
                && r->Ok_0.wf(),
            spec_load(data@) is None ==> r == Err::<Cache, NavError>(NavError::CorruptState),
    {
        proof {
            lemma_parse_records_wf(data@);
        }
        match parse_records(data) {
            None => Err(NavError::CorruptState),
            Some(v) => {
                if Self::ids_ok(&v) {
                    let c = Cache { entries: v };
                    Ok(c)
                } else {
                    Err(NavError::CorruptState)
                }
            },
        }
    }

    /// Checks that identifiers strictly increase bottom to top.
    fn ids_ok(v: &Vec<Entry>) -> (r: bool)
        ensures
            r == ids_increasing(entries_view(v@)),
    {
        let ghost es = entries_view(v@);
        if v.len() <= 1 {
            return true;
        }
        let mut k: usize = 1;
        while k < v.len()
            invariant
                1 <= k <= v@.len(),
                es == entries_view(v@),
                forall|i: int, j: int| 0 <= i < j < k ==> es[i].id < es[j].id,
            decreases v@.len() - k,
        {
            if v[k - 1].id >= v[k].id {
                proof {
                    assert(es[k - 1].id >= es[k as int].id);
                }
                return false;
            }
            proof {
                assert(es[k - 1] == v@[k - 1]@ && es[k as int] == v@[k as int]@);
                assert forall|i: int, j: int| 0 <= i < j < k + 1 implies es[i].id < es[j].id by {
                    if j == k {
                        if i < k - 1 {
                            assert(es[i].id < es[k - 1].id);
                        }
                        assert(es[k - 1].id < es[k as int].id);
                    }
                };
            }
            k = k + 1;
        }
        true
    }

    /// Renders the whole backing file for this stack.
    pub fn encode(&self) -> (r: Vec<u8>)
        ensures
            r@ == spec_encode_stack(self@),
    {
        let mut out: Vec<u8> = Vec::new();
        let mut i: usize = 0;
        proof {
            assert(self@.take(0) =~= Seq::<EntryModel>::empty());
        }
        while i < self.entries.len()
            invariant
                0 <= i <= self.entries@.len(),
                out@ == spec_encode_stack(self@.take(i as int)),
            decreases self.entries@.len() - i,
        {
            let rec = encode_entry(&self.entries[i]);
            append_bytes(&mut out, rec.as_slice());
            proof {
                lemma_encode_stack_push(self@.take(i as int), self@[i as int]);
                assert(self@.take(i + 1 as int) =~= self@.take(i as int).push(self@[i as int]));
                assert(rec@ == crate::codec::spec_encode_entry(self@[i as int]));
            }
            i = i + 1;
        }
        proof {
            assert(self@.take(self@.len() as int) =~= self@);
        }
        out
    }

    /// Appends a new entry holding `path`, with the next identifier, and
    /// returns a copy of it. The caller persists it by appending its record
    /// (`encode_entry`) to the backing file.
    pub fn push(&mut self, path: Vec<u8>, timestamp: u64) -> (e: Entry)
        requires
            old(self).wf(),
            path_wf(path@),
            spec_next_id(old(self)@) <= u64::MAX,
        ensures
            e@ == (EntryModel {
                id: spec_next_id(old(self)@) as u64,
                timestamp: timestamp,
                path: path@,
            }),
            final(self)@ == old(self)@.push(e@),
            final(self)@ == spec_push(old(self)@, path@, timestamp),
            final(self).wf(),
    {
        let len = self.entries.len();
        let id: u64;
        if len == 0 {
            id = 1;
        } else {
            let last_id = self.entries[len - 1].id;
            proof {
                assert(last_id == self@.last().id);
            }
            id = last_id + 1;
        }
        let path_copy = crate::codec::copy_bytes(&path);
        let en = Entry { id: id, timestamp: timestamp, path: path };
        self.entries.push(en);
        let e = Entry { id: id, timestamp: timestamp, path: path_copy };
        proof {
            assert(self@ =~= old(self)@.push(e@));
            assert forall|i: int, j: int| 0 <= i < j < self@.len() implies self@[i].id
                < self@[j].id by {
                if j < self@.len() - 1 {
                    assert(old(self)@[i].id < old(self)@[j].id);
                } else if i < self@.len() - 1 {
                    if i < old(self)@.len() - 1 {
                        assert(old(self)@[i].id < old(self)@[old(self)@.len() - 1].id);
                    }
                }
            };
        }
        e
    }

    /// The top entry, if any, without removing it. Never touches the file.
    pub fn peek(&self) -> (r: Option<&Entry>)
        ensures
            self@.len() == 0 ==> r is None,
            self@.len() > 0 ==> r is Some && r->0@ == self@.last(),
    {
        if self.entries.len() == 0 {
            None
        } else {
            Some(&self.entries[self.entries.len() - 1])
        }
    }

    /// Removes and returns the top entry; yields nothing, and leaves the
    /// stack exactly as it was, when the stack is empty.
    pub fn try_pop(&mut self) -> (r: Option<Entry>)
        requires
            old(self).wf(),
        ensures
            old(self)@.len() == 0 ==> r is None && final(self)@ == old(self)@,
            old(self)@.len() > 0 ==> r is Some && r->0@ == old(self)@.last() && final(self)@
                == old(self)@.drop_last(),
            final(self).wf(),
    {
        let r = self.entries.pop();
        proof {
            if old(self)@.len() > 0 {
                assert(self@ =~= old(self)@.drop_last());
            } else {
                assert(self@ =~= old(self)@);
            }
        }
        r
    }

    /// Removes every entry from the top down to and including the one whose
    /// identifier equals `id`, returning them most recent first. When no
    /// entry carries `id`, fails with `NotFound` and leaves the stack
    /// untouched (all-or-nothing).
    pub fn try_pop_until(&mut self, id: u64) -> (r: Result<Vec<Entry>, NavError>)
        requires
            old(self).wf(),
        ensures
            has_id(old(self)@, id) ==> r is Ok && entries_view(r->Ok_0@) == old(self)@.skip(
                id_index(old(self)@, id),
            ).reverse() && final(self)@ == old(self)@.take(id_index(old(self)@, id)),
            !has_id(old(self)@, id) ==> r == Err::<Vec<Entry>, NavError>(NavError::NotFound)
                && final(self)@ == old(self)@,
            final(self).wf(),
    {
        let n = self.entries.len();
        let mut i: usize = 0;
        while i < n
            invariant
                0 <= i <= n == self.entries@.len(),
                self.entries@ == old(self).entries@,
                old(self).wf(),
                forall|k: int| 0 <= k < i ==> entries_view(self.entries@)[k].id != id,
            decreases n - i,
        {
            if self.entries[i].id == id {
                proof {
                    assert(old(self)@[i as int].id == id);
                    assert(has_id(old(self)@, id));
                    lemma_id_index(old(self)@, id);
                    assert(id_index(old(self)@, id) == i);
                }
                let tail = self.entries.split_off(i);
                let ghost tail0 = tail@;
                proof {
                    assert(self@ =~= old(self)@.take(i as int));
                    assert(entries_view(tail0) =~= old(self)@.skip(i as int));
                }
                let mut t = tail;
                let mut out: Vec<Entry> = Vec::new();
                proof {
                    assert(t@ =~= tail0.take(t@.len() as int));
                    assert(out@ =~= tail0.skip(t@.len() as int).reverse());
                }
                while t.len() > 0
                    invariant
                        t@.len() <= tail0.len(),
                        t@ == tail0.take(t@.len() as int),
                        out@ == tail0.skip(t@.len() as int).reverse(),
                    decreases t@.len(),
                {
                    let ghost l = t@.len() as int;
                    let popped = t.pop();
                    match popped {
                        Some(x) => {
                            proof {
                                assert(x == tail0[l - 1]);
                                assert(t@ =~= tail0.take(l - 1));
                                assert(tail0.skip(l - 1) =~= seq![tail0[l - 1]] + tail0.skip(l));
                                assert(tail0.skip(l - 1).reverse() =~= tail0.skip(
                                    l,
                                ).reverse().push(tail0[l - 1]));
                            }
                            out.push(x);
                        },
                        None => {
                            proof {
                                assert(false);
                            }
                        },
                    }
                }
                proof {
                    assert(tail0.skip(0) =~= tail0);
                    assert(out@ == tail0.reverse());
                    assert(entries_view(out@) =~= entries_view(tail0).reverse());
                    assert(entries_view(out@) =~= old(self)@.skip(i as int).reverse());
                    assert(self.wf()) by {
                        assert(forall|k: int| 0 <= k < i ==> self@[k] == old(self)@[k]);
                        assert(forall|k: int| 0 <= k < i ==> entry_wf(#[trigger] self@[k]));
                    };
                }
                return Ok(out);
            }
            proof {
                assert(entries_view(self.entries@)[i as int] == self.entries@[i as int]@);
            }
            i = i + 1;
        }
        proof {
            if has_id(old(self)@, id) {
                let w = choose|k: int| 0 <= k < old(self)@.len() && old(self)@[k].id == id;
                assert(entries_view(self.entries@)[w].id != id);
            }
        }
        Err(NavError::NotFound)
    }
}

proof fn lemma_push_all_general(es: Seq<EntryModel>, paths: Seq<Seq<u8>>, tss: Seq<u64>)
    requires
        paths.len() == tss.len(),
        stack_wf(es),
        forall|k: int| 0 <= k < paths.len() ==> path_wf(#[trigger] paths[k]),
        spec_next_id(es) + paths.len() <= u64::MAX + 1,
    ensures
        spec_push_all(es, paths, tss).len() == es.len() + paths.len(),
        forall|k: int| 0 <= k < es.len() ==> spec_push_all(es, paths, tss)[k] == es[k],
        forall|k: int| 0 <= k < paths.len() ==> spec_push_all(es, paths, tss)[es.len() + k] == (
        EntryModel {
            id: (spec_next_id(es) + k) as u64,
            timestamp: tss[k],
            path: paths[k],
        }),
        stack_wf(spec_push_all(es, paths, tss)),
    decreases paths.len(),
{
    if paths.len() > 0 {
        let nid = spec_next_id(es);
        let e0 = EntryModel { id: nid as u64, timestamp: tss[0], path: paths[0] };
        let es1 = spec_push(es, paths[0], tss[0]);
        assert(es1 == es.push(e0));
        assert(stack_wf(es1)) by {
            assert forall|i: int, j: int| 0 <= i < j < es1.len() implies es1[i].id < es1[j].id by {
                if j < es1.len() - 1 {
                    assert(es[i].id < es[j].id);
                } else if i < es1.len() - 1 {
                    if i < es.len() - 1 {
                        assert(es[i].id < es[es.len() - 1].id);
                    }
                }
            };
            assert(forall|k: int| 0 <= k < es.len() ==> entry_wf(#[trigger] es1[k]));
            assert(entry_wf(e0));
        };
        assert(es1.last() == e0);
        assert(spec_next_id(es1) == nid + 1);
        assert(forall|k: int| 0 <= k < paths.skip(1).len() ==> paths.skip(1)[k] == paths[k + 1]);
        assert(forall|k: int| 0 <= k < tss.skip(1).len() ==> tss.skip(1)[k] == tss[k + 1]);
        lemma_push_all_general(es1, paths.skip(1), tss.skip(1));
        let r = spec_push_all(es, paths, tss);
        assert(r == spec_push_all(es1, paths.skip(1), tss.skip(1)));
        assert forall|k: int| 0 <= k < es.len() implies r[k] == es[k] by {
            assert(r[k] == es1[k]);
            assert(es1[k] == es[k]);
        };
        assert forall|k: int| 0 <= k < paths.len() implies r[es.len() + k] == (EntryModel {
            id: (nid + k) as u64,
            timestamp: tss[k],
            path: paths[k],
        }) by {
            if k == 0 {
                assert(r[es1.len() - 1] == es1[es1.len() - 1]);
            } else {
                assert(r[es1.len() + (k - 1)] == (EntryModel {
                    id: (spec_next_id(es1) + (k - 1)) as u64,
                    timestamp: tss.skip(1)[k - 1],
                    path: paths.skip(1)[k - 1],
                }));
            }
        };
    }
}

/// The LIFO law: pushing paths P1..Pn (with any timestamps) on an empty
/// stack yields a stack holding them in that order. The top is then Pn, so
/// `peek` returns Pn, and n successive pops see, in turn, stacks whose tops
/// are Pn, Pn-1, ..., P1: the k-th-from-last prefix has the k-th path on
/// top, and popping it leaves the next shorter prefix.
pub proof fn lemma_lifo(paths: Seq<Seq<u8>>, tss: Seq<u64>)
    requires
        paths.len() == tss.len(),
        paths.len() <= u64::MAX,
        forall|k: int| 0 <= k < paths.len() ==> path_wf(#[trigger] paths[k]),
    ensures
        spec_push_all(Seq::empty(), paths, tss).len() == paths.len(),
        forall|k: int| 0 <= k < paths.len() ==> spec_push_all(Seq::empty(), paths, tss)[k].path
            == paths[k],
        stack_wf(spec_push_all(Seq::empty(), paths, tss)),
        forall|k: int| 0 <= k < paths.len() ==> spec_push_all(Seq::empty(), paths, tss).take(k + 1)
            .last().path == paths[k] && spec_push_all(Seq::empty(), paths, tss).take(k
            + 1).drop_last() == spec_push_all(Seq::empty(), paths, tss).take(k),
{
    lemma_push_all_general(Seq::empty(), paths, tss);
    let st = spec_push_all(Seq::empty(), paths, tss);
    assert forall|k: int| 0 <= k < paths.len() implies st.take(k + 1).last().path == paths[k]
        && st.take(k + 1).drop_last() == st.take(k) by {
        assert(st.take(k + 1).last() == st[k]);
        assert(st.take(k + 1).drop_last() =~= st.take(k));
    };
}

/// Unwinding to the identifier of the current top behaves exactly as a
/// single pop: the one entry removed is the top, what remains is everything
/// below it, and the returned batch is that single entry.
pub proof fn lemma_pop_until_top_is_pop(es: Seq<EntryModel>, id: u64)
    requires
        stack_wf(es),
        es.len() > 0,
        id == es.last().id,
    ensures
        has_id(es, id),
        id_index(es, id) == es.len() - 1,
        es.skip(es.len() - 1).reverse() == seq![es.last()],
        es.take(es.len() - 1) == es.drop_last(),
{
    assert(es[es.len() - 1].id == id);
    assert(has_id(es, id));
    lemma_id_index(es, id);
    assert(es.skip(es.len() - 1).reverse() =~= seq![es.last()]);
    assert(es.take(es.len() - 1) =~= es.drop_last());
}

/// Round trip: the backing file written for any well-formed stack loads
/// back to exactly the same entries; in particular, after pushing an entry
/// and reloading, `peek` returns an entry equal to it in identifier, path
/// and timestamp.
pub proof fn lemma_store_load_round_trip(es: Seq<EntryModel>)
    requires
        stack_wf(es),
    ensures
        spec_load(spec_encode_stack(es)) == Some(es),
{
    assert(forall|k: int| 0 <= k < es.len() ==> entry_wf(#[trigger] es[k]));
    lemma_parse_records_of_encode(es);
}

} // verus!
