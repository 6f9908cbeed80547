//! The guild-scoped registry: an ordered list of (person, timezone) entries
//! per guild, mutated only by appending. The registry is the in-memory source
//! of truth; persistence serializes its full snapshot (see `codec`).

use vstd::prelude::*;

verus! {

/// One registered entry: a person together with a timezone identifier.
pub struct Entry {
    pub person: String,
    pub tz: String,
}

/// Mathematical model of an `Entry`.
#[verifier::ext_equal]
pub ghost struct EntryV {
    pub person: Seq<char>,
    pub tz: Seq<char>,
}

impl View for Entry {
    type V = EntryV;

    open spec fn view(&self) -> EntryV {
        EntryV { person: self.person@, tz: self.tz@ }
    }
}

/// All entries registered under one guild, in insertion order.
pub struct GuildRecord {
    pub guild: u64,
    pub entries: Vec<Entry>,
}

/// Mathematical model of a `GuildRecord`.
#[verifier::ext_equal]
pub ghost struct RecordV {
    pub guild: u64,
    pub entries: Seq<EntryV>,
}

impl View for GuildRecord {
    type V = RecordV;

    open spec fn view(&self) -> RecordV {
        RecordV { guild: self.guild, entries: self.entries@.map_values(|e: Entry| e@) }
    }
}

/// The registry: a mapping from guild identifier to its record, kept as a
/// sequence of records with pairwise distinct guild identifiers.
pub struct Registry {
    pub recs: Vec<GuildRecord>,
}

impl View for Registry {
    type V = Seq<RecordV>;

    open spec fn view(&self) -> Seq<RecordV> {
        self.recs@.map_values(|r: GuildRecord| r@)
    }
}

/// Guild identifiers are pairwise distinct.
pub open spec fn wf(recs: Seq<RecordV>) -> bool {
    forall|i: int, j: int| 0 <= i < j < recs.len() ==> recs[i].guild != recs[j].guild
}

/// The entries of guild `g`: those of the first record with identifier `g`,
/// or the empty sequence if no record has it. A guild that is absent reads
/// the same as a guild with an empty entry list.
pub open spec fn entries_of(recs: Seq<RecordV>, g: u64) -> Seq<EntryV>
    decreases recs.len(),
{
    if recs.len() == 0 {
        Seq::empty()
    } else if recs[0].guild == g {
        recs[0].entries
    } else {
        entries_of(recs.drop_first(), g)
    }
}

/// The snapshot after appending entry `e` under guild `g`: the first record
/// with identifier `g` gets `e` appended in place, or a fresh record is
/// appended at the end if the guild is absent.
pub open spec fn add_spec(recs: Seq<RecordV>, g: u64, e: EntryV) -> Seq<RecordV>
    decreases recs.len(),
{
    if recs.len() == 0 {
        seq![RecordV { guild: g, entries: seq![e] }]
    } else if recs[0].guild == g {
        seq![RecordV { guild: g, entries: recs[0].entries.push(e) }] + recs.drop_first()
    } else {
        seq![recs[0]] + add_spec(recs.drop_first(), g, e)
    }
}

/// Whether some record carries guild `g`.
pub open spec fn has_guild(recs: Seq<RecordV>, g: u64) -> bool {
    exists|i: int| 0 <= i < recs.len() && recs[i].guild == g
}

/// `add_spec` reads back as a plain append at the level of `entries_of`:
/// guild `g` gains exactly `e` at the end, every other guild is untouched,
/// and distinctness of guild identifiers is preserved.
#[verifier::rlimit(50)]
pub proof fn lemma_add_entries(recs: Seq<RecordV>, g: u64, e: EntryV)
    ensures
        entries_of(add_spec(recs, g, e), g) == entries_of(recs, g).push(e),
        forall|h: u64| h != g ==> entries_of(add_spec(recs, g, e), h) == entries_of(recs, h),
        forall|h: u64| #[trigger] has_guild(add_spec(recs, g, e), h) <==> (has_guild(recs, h) || h
            == g),
        wf(recs) ==> wf(add_spec(recs, g, e)),
    decreases recs.len(),
{
    let out = add_spec(recs, g, e);
    if recs.len() == 0 {
        assert(entries_of(out, g) == out[0].entries);
        assert(out[0].entries =~= entries_of(recs, g).push(e));
        assert forall|h: u64| h != g implies entries_of(out, h) == entries_of(recs, h) by {
            assert(out[0].guild == g);
            assert(entries_of(out, h) == entries_of(out.drop_first(), h));
            assert(out.drop_first() =~= Seq::<RecordV>::empty());
            assert(entries_of(out.drop_first(), h) =~= Seq::<EntryV>::empty());
            assert(entries_of(recs, h) =~= Seq::<EntryV>::empty());
        }
        assert forall|h: u64| has_guild(out, h) implies (has_guild(recs, h) || h == g) by {
            let i = choose|i: int| 0 <= i < out.len() && out[i].guild == h;
            assert(i == 0);
        }
        assert(has_guild(out, g)) by {
            assert(out[0].guild == g);
        }
    } else if recs[0].guild == g {
        assert(out[0].entries =~= entries_of(recs, g).push(e));
        assert(out.drop_first() =~= recs.drop_first());
        assert forall|h: u64| has_guild(out, h) implies (has_guild(recs, h) || h == g) by {
            let i = choose|i: int| 0 <= i < out.len() && out[i].guild == h;
            if i > 0 {
                assert(out[i] == recs[i]);
            }
        }
        assert forall|h: u64| has_guild(recs, h) || h == g implies has_guild(out, h) by {
            if has_guild(recs, h) {
                let i = choose|i: int| 0 <= i < recs.len() && recs[i].guild == h;
                assert(out[i].guild == h);
            } else {
                assert(out[0].guild == g);
            }
        }
        if wf(recs) {
            assert forall|i: int, j: int| 0 <= i < j < out.len() implies out[i].guild
                != out[j].guild by {
                assert(out[i].guild == recs[i].guild);
                assert(out[j].guild == recs[j].guild);
            }
        }
    } else {
        lemma_add_entries(recs.drop_first(), g, e);
        let tail_out = add_spec(recs.drop_first(), g, e);
        assert(out.drop_first() =~= tail_out);
        assert(entries_of(out, g) == entries_of(recs, g).push(e));
        assert forall|h: u64| h != g implies entries_of(out, h) == entries_of(recs, h) by {
            assert(out[0] == recs[0]);
            if recs[0].guild == h {
                assert(entries_of(out, h) == out[0].entries);
                assert(entries_of(recs, h) == recs[0].entries);
            } else {
                assert(entries_of(out, h) == entries_of(out.drop_first(), h));
                assert(entries_of(out.drop_first(), h) == entries_of(tail_out, h));
                assert(entries_of(recs, h) == entries_of(recs.drop_first(), h));
            }
        }
        assert forall|h: u64| has_guild(out, h) implies (has_guild(recs, h) || h == g) by {
            let i = choose|i: int| 0 <= i < out.len() && out[i].guild == h;
            if i == 0 {
                assert(recs[0].guild == h);
            } else {
                assert(tail_out[i - 1].guild == h);
                assert(has_guild(tail_out, h));
                if has_guild(recs.drop_first(), h) {
                    let k = choose|k: int|
                        0 <= k < recs.drop_first().len() && recs.drop_first()[k].guild == h;
                    assert(recs[k + 1].guild == h);
                }
            }
        }
        assert forall|h: u64| has_guild(recs, h) || h == g implies has_guild(out, h) by {
            if h == g {
                assert(has_guild(tail_out, g));
                let k = choose|k: int| 0 <= k < tail_out.len() && tail_out[k].guild == h;
                assert(out[k + 1] == tail_out[k]);
                assert(out[k + 1].guild == h);
            } else {
                let i = choose|i: int| 0 <= i < recs.len() && recs[i].guild == h;
                if i == 0 {
                    assert(out[0].guild == h);
                } else {
                    assert(has_guild(recs.drop_first(), h)) by {
                        assert(recs.drop_first()[i - 1].guild == h);
                    }
                    assert(has_guild(tail_out, h));
                    let k = choose|k: int| 0 <= k < tail_out.len() && tail_out[k].guild == h;
                    assert(out[k + 1] == tail_out[k]);
                    assert(out[k + 1].guild == h);
                }
            }
        }
        if wf(recs) {
            assert(wf(recs.drop_first())) by {
                assert forall|i: int, j: int|
                    0 <= i < j < recs.drop_first().len() implies recs.drop_first()[i].guild
                    != recs.drop_first()[j].guild by {
                    assert(recs[i + 1].guild != recs[j + 1].guild);
                }
            }
            assert(!has_guild(recs.drop_first(), recs[0].guild)) by {
                if has_guild(recs.drop_first(), recs[0].guild) {
                    let k = choose|k: int|
                        0 <= k < recs.drop_first().len() && recs.drop_first()[k].guild == recs[0].guild;
                    assert(recs[k + 1].guild == recs[0].guild);
                }
            }
            assert forall|i: int, j: int| 0 <= i < j < out.len() implies out[i].guild
                != out[j].guild by {
                if i == 0 {
                    assert(tail_out[j - 1].guild == out[j].guild);
                    assert(has_guild(tail_out, out[j].guild));
                } else {
                    assert(tail_out[i - 1].guild == out[i].guild);
                    assert(tail_out[j - 1].guild == out[j].guild);
                }
            }
        }
    }
}

/// When the first record with guild `g` stands at index `i`, appending under
/// `g` is an in-place update of that record alone.
proof fn lemma_add_at_index(recs: Seq<RecordV>, g: u64, e: EntryV, i: int)
    requires
        0 <= i < recs.len(),
        recs[i].guild == g,
        forall|j: int| 0 <= j < i ==> recs[j].guild != g,
    ensures
        add_spec(recs, g, e) == recs.update(
            i,
            RecordV { guild: g, entries: recs[i].entries.push(e) },
        ),
    decreases recs.len(),
{
    if i == 0 {
        assert(add_spec(recs, g, e) =~= recs.update(
            0,
            RecordV { guild: g, entries: recs[0].entries.push(e) },
        ));
    } else {
        assert(recs[0].guild != g);
        assert forall|j: int| 0 <= j < i - 1 implies recs.drop_first()[j].guild != g by {
            assert(recs.drop_first()[j] == recs[j + 1]);
        }
        lemma_add_at_index(recs.drop_first(), g, e, i - 1);
        assert(add_spec(recs, g, e) =~= recs.update(
            i,
            RecordV { guild: g, entries: recs[i].entries.push(e) },
        ));
    }
}

/// When no record carries guild `g`, appending under `g` appends a fresh
/// one-entry record at the end.
proof fn lemma_add_absent(recs: Seq<RecordV>, g: u64, e: EntryV)
    requires
        forall|j: int| 0 <= j < recs.len() ==> recs[j].guild != g,
    ensures
        add_spec(recs, g, e) == recs.push(RecordV { guild: g, entries: seq![e] }),
    decreases recs.len(),
{
    if recs.len() == 0 {
        assert(add_spec(recs, g, e) =~= recs.push(RecordV { guild: g, entries: seq![e] }));
    } else {
        assert forall|j: int| 0 <= j < recs.drop_first().len() implies recs.drop_first()[j].guild
            != g by {
            assert(recs.drop_first()[j] == recs[j + 1]);
        }
        lemma_add_absent(recs.drop_first(), g, e);
        assert(add_spec(recs, g, e) =~= recs.push(RecordV { guild: g, entries: seq![e] }));
    }
}

/// `entries_of` reads the record at the first matching index.
proof fn lemma_entries_at_index(recs: Seq<RecordV>, g: u64, i: int)
    requires
        0 <= i < recs.len(),
        recs[i].guild == g,
        forall|j: int| 0 <= j < i ==> recs[j].guild != g,
    ensures
        entries_of(recs, g) == recs[i].entries,
    decreases recs.len(),
{
    if i > 0 {
        assert forall|j: int| 0 <= j < i - 1 implies recs.drop_first()[j].guild != g by {
            assert(recs.drop_first()[j] == recs[j + 1]);
        }
        lemma_entries_at_index(recs.drop_first(), g, i - 1);
    }
}

/// A guild with no record reads as an empty entry list.
proof fn lemma_entries_absent(recs: Seq<RecordV>, g: u64)
    requires
        forall|j: int| 0 <= j < recs.len() ==> recs[j].guild != g,
    ensures
        entries_of(recs, g) =~= Seq::<EntryV>::empty(),
    decreases recs.len(),
{
    if recs.len() > 0 {
        assert forall|j: int| 0 <= j < recs.drop_first().len() implies recs.drop_first()[j].guild
            != g by {
            assert(recs.drop_first()[j] == recs[j + 1]);
        }
        lemma_entries_absent(recs.drop_first(), g);
    }
}

/// Rejection cause for a `register` request.
#[derive(Clone, Copy, Debug, PartialEq, Eq, Structural)]
pub enum RegistryError {
    UnknownTimezone,
}

impl Registry {
    /// A registry with no guilds at all.
    pub fn new() -> (r: Registry)
        ensures
            r@ =~= Seq::<RecordV>::empty(),
            wf(r@),
    {
        Registry { recs: Vec::new() }
    }

    /// Index of the first record with guild `g`, if any.
    fn find(&self, g: u64) -> (r: Option<usize>)
        ensures
            match r {
                Some(i) => 0 <= i < self@.len() && self@[i as int].guild == g && forall|j: int|
                    0 <= j < i ==> self@[j].guild != g,
                None => forall|j: int| 0 <= j < self@.len() ==> self@[j].guild != g,
            },
    {
        let n = self.recs.len();
        let mut i: usize = 0;
        while i < n
            invariant
                n == self.recs@.len(),
                self@.len() == n,
                0 <= i <= n,
                forall|j: int| 0 <= j < i ==> self@[j].guild != g,
                forall|j: int| 0 <= j < n ==> self@[j] == self.recs@[j]@,
            decreases n - i,
        {
            if self.recs[i].guild == g {
                return Some(i);
            }
            i = i + 1;
        }
        None
    }

    /// The current entries for guild `g`, in insertion order, or an empty
    /// list if the guild is unknown. Never fails.
    pub fn get(&self, g: u64) -> (r: Vec<Entry>)
        ensures
            r@.map_values(|e: Entry| e@) == entries_of(self@, g),
            r@.len() == entries_of(self@, g).len(),
            forall|i: int| 0 <= i < r@.len() ==> r@[i]@ == entries_of(self@, g)[i],
    {
        let mut out: Vec<Entry> = Vec::new();
        match self.find(g) {
            None => {
                proof {
                    lemma_entries_absent(self@, g);
                    assert(out@.map_values(|e: Entry| e@) =~= entries_of(self@, g));
                }
                out
            },
            Some(i) => {
                proof {
                    lemma_entries_at_index(self@, g, i as int);
                }
                let rec = &self.recs[i];
                let n = rec.entries.len();
                let mut j: usize = 0;
                while j < n
                    invariant
                        n == rec.entries@.len(),
                        0 <= j <= n,
                        out@.len() == j,
                        forall|k: int| 0 <= k < j ==> out@[k]@ == rec.entries@[k]@,
                    decreases n - j,
                {
                    let e = &rec.entries[j];
                    out.push(Entry { person: e.person.clone(), tz: e.tz.clone() });
                    j = j + 1;
                }
                proof {
                    assert(0 <= i < self.recs@.len());
                    assert(self@[i as int] == self.recs@[i as int]@);
                    assert(out@.map_values(|e: Entry| e@) =~= entries_of(self@, g));
                }
                out
            },
        }
    }

    /// Appends a new entry under guild `g`, creating the guild's record if
    /// absent. Always succeeds; validation is the caller's business (see
    /// `register`). Persistence is not touched.
    pub fn add(&mut self, g: u64, person: String, tz: String)
        ensures
            final(self)@ == add_spec(old(self)@, g, EntryV { person: person@, tz: tz@ }),
            wf(old(self)@) ==> wf(final(self)@),
    {
        proof {
            lemma_add_entries(old(self)@, g, EntryV { person: person@, tz: tz@ });
        }
        let ghost e = EntryV { person: person@, tz: tz@ };
        match self.find(g) {
            Some(i) => {
                proof {
                    lemma_add_at_index(old(self)@, g, e, i as int);
                }
                let mut rec = self.recs.remove(i);
                rec.entries.push(Entry { person, tz });
                self.recs.insert(i, rec);
                proof {
                    assert(self@ =~~= add_spec(old(self)@, g, e));
                }
            },
            None => {
                proof {
                    lemma_add_absent(old(self)@, g, e);
                }
                let mut entries: Vec<Entry> = Vec::new();
                entries.push(Entry { person, tz });
                self.recs.push(GuildRecord { guild: g, entries });
                proof {
                    assert(self@ =~~= add_spec(old(self)@, g, e));
                }
            },
        }
    }

    /// The write path of a "register" request: validates the timezone
    /// identifier against the recognized set, then appends. An unknown
    /// identifier is rejected and the registry is left exactly as it was.
    pub fn register(&mut self, g: u64, person: String, tz: String, recognized: &Vec<String>) -> (r:
        Result<(), RegistryError>)
        ensures
            (exists|i: int| 0 <= i < recognized@.len() && recognized@[i]@ == tz@) ==> (r is Ok
                && final(self)@ == add_spec(
                old(self)@,
                g,
                EntryV { person: person@, tz: tz@ },
            )),
            !(exists|i: int| 0 <= i < recognized@.len() && recognized@[i]@ == tz@) ==> (r == Result::<
                (),
                RegistryError,
            >::Err(RegistryError::UnknownTimezone) && final(self)@ == old(self)@),
            wf(old(self)@) ==> wf(final(self)@),
    {
        if !crate::is_valid(tz.as_str(), recognized) {
            return Err(RegistryError::UnknownTimezone);
        }
        self.add(g, person, tz);
        Ok(())
    }
}

/// Law: no implicit deduplication. Appending the same entry twice under the
/// same guild leaves two identical entries in that guild's list, never one.
pub proof fn lemma_no_implicit_dedup(recs: Seq<RecordV>, g: u64, e: EntryV)
    ensures
        entries_of(add_spec(add_spec(recs, g, e), g, e), g) == entries_of(recs, g).push(e).push(e),
        entries_of(add_spec(add_spec(recs, g, e), g, e), g).len() == entries_of(recs, g).len() + 2,
{
    lemma_add_entries(recs, g, e);
    lemma_add_entries(add_spec(recs, g, e), g, e);
}

/// Law: two appends under the same guild, serialized in either order, both
/// survive — neither update is lost, whichever entry lands first.
pub proof fn lemma_concurrent_adds(recs: Seq<RecordV>, g: u64, e1: EntryV, e2: EntryV)
    ensures
        entries_of(add_spec(add_spec(recs, g, e1), g, e2), g) == entries_of(recs, g).push(e1).push(
            e2,
        ),
        entries_of(add_spec(add_spec(recs, g, e1), g, e2), g).contains(e1),
        entries_of(add_spec(add_spec(recs, g, e1), g, e2), g).contains(e2),
{
    lemma_add_entries(recs, g, e1);
    lemma_add_entries(add_spec(recs, g, e1), g, e2);
    let all = entries_of(recs, g).push(e1).push(e2);
    let n = entries_of(recs, g).len() as int;
    assert(all[n] == e1);
    assert(all[n + 1] == e2);
}

} // verus!
