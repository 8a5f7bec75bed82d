//! The index builder: it walks the top-level listing's directories in
//! order, feeds each language's fetched directory listing to the resolver,
//! accumulates the resolved entries, and tracks whether any hard error
//! occurred. Fetching itself is the surrounding application's job; the
//! builder is the decision half of that loop.

use vstd::prelude::*;
use crate::index::{Index, IndexEntry, IndexEntryV, INDEX_VERSION};
use crate::listing::{Listing, ListingKind, ListingKindV, ListingV, listings_view};
use crate::resolve::{resolve_language, resolve_spec, FileClass, Resolution, ResolutionV};
use crate::stamp::{fresh_entry_id, now_utc_rfc3339, timestamp_chars, uuid_text};

verus! {

/// Why fetching one directory listing failed.
#[derive(Debug, Clone, Copy, PartialEq, Eq)]
pub enum FetchError {
    /// The network request itself failed.
    Transport,
    /// The payload did not match the expected listing shape.
    ResponseFormat,
}

/// Mathematical model of a [`Target`].
pub ghost struct TargetV {
    pub lang: Seq<char>,
    pub url: Seq<char>,
}

/// One language directory to resolve: its name is the language code, its
/// URL lists the directory.
#[derive(Debug, Clone, PartialEq)]
pub struct Target {
    pub lang: String,
    pub url: String,
}

impl View for Target {
    type V = TargetV;

    open spec fn view(&self) -> TargetV {
        TargetV { lang: self.lang@, url: self.url@ }
    }
}

/// The directories of a top-level listing, in listing order; non-directory
/// entries are ignored.
pub open spec fn targets_spec(ls: Seq<ListingV>) -> Seq<TargetV>
    decreases ls.len(),
{
    if ls.len() == 0 {
        Seq::empty()
    } else {
        let rest = targets_spec(ls.drop_first());
        if ls[0].kind is Dir {
            seq![TargetV { lang: ls[0].name, url: ls[0].url }] + rest
        } else {
            rest
        }
    }
}

proof fn lemma_targets_concat(a: Seq<ListingV>, b: Seq<ListingV>)
    ensures
        targets_spec(a + b) == targets_spec(a) + targets_spec(b),
    decreases a.len(),
{
    if a.len() == 0 {
        assert(a + b =~= b);
        assert(targets_spec(a) + targets_spec(b) =~= targets_spec(b));
    } else {
        assert((a + b).drop_first() =~= a.drop_first() + b);
        lemma_targets_concat(a.drop_first(), b);
        assert((a + b)[0] == a[0]);
        if a[0].kind is Dir {
            assert(seq![TargetV { lang: a[0].name, url: a[0].url }] + (targets_spec(a.drop_first())
                + targets_spec(b)) =~= (seq![TargetV { lang: a[0].name, url: a[0].url }]
                + targets_spec(a.drop_first())) + targets_spec(b));
        }
    }
}

proof fn lemma_targets_single(l: ListingV)
    ensures
        targets_spec(seq![l]) == if l.kind is Dir {
            seq![TargetV { lang: l.name, url: l.url }]
        } else {
            Seq::<TargetV>::empty()
        },
{
    assert(seq![l].drop_first() =~= Seq::<ListingV>::empty());
    assert(targets_spec(Seq::<ListingV>::empty()) =~= Seq::<TargetV>::empty());
    if l.kind is Dir {
        assert(targets_spec(seq![l]) =~= seq![TargetV { lang: l.name, url: l.url }]);
    } else {
        assert(targets_spec(seq![l]) =~= Seq::<TargetV>::empty());
    }
}

/// The languages a top-level listing asks the run to resolve: one target
/// per directory entry, in listing order.
pub fn discovery_targets(top: &Vec<Listing>) -> (r: Vec<Target>)
    ensures
        r@.map_values(|t: Target| t@) == targets_spec(listings_view(top@)),
{
    let ghost all = listings_view(top@);
    let mut r: Vec<Target> = Vec::new();
    let mut i: usize = 0;
    while i < top.len()
        invariant
            0 <= i <= top@.len(),
            all == listings_view(top@),
            r@.map_values(|t: Target| t@) == targets_spec(all.take(i as int)),
        decreases top@.len() - i,
    {
        proof {
            assert(all.take(i + 1) =~= all.take(i as int) + seq![all[i as int]]);
            lemma_targets_concat(all.take(i as int), seq![all[i as int]]);
            lemma_targets_single(all[i as int]);
            assert(all[i as int] == top@[i as int]@);
        }
        let ghost prev = r@;
        match &top[i].kind {
            ListingKind::Dir => {
                let t = Target { lang: top[i].name.clone(), url: top[i].url.clone() };
                r.push(t);
                proof {
                    assert(t@ == TargetV { lang: all[i as int].name, url: all[i as int].url });
                    assert(r@.map_values(|t: Target| t@) =~= prev.map_values(|t: Target| t@)
                        + seq![t@]);
                    assert(r@.map_values(|t: Target| t@) == targets_spec(all.take(i + 1)));
                }
            },
            ListingKind::File { .. } => {
                proof {
                    assert(targets_spec(all.take(i + 1)) =~= targets_spec(all.take(i as int)));
                }
            },
        }
        i += 1;
    }
    proof {
        assert(all.take(top@.len() as int) =~= all);
    }
    r
}

/// Mathematical model of an [`IndexBuilder`].
pub ghost struct IndexBuilderV {
    pub items: Seq<IndexEntryV>,
    pub has_errors: bool,
}

/// The accumulating state of one synchronization run.
#[derive(Debug, Clone, PartialEq)]
pub struct IndexBuilder {
    /// Entries resolved so far, in discovery order.
    pub items: Vec<IndexEntry>,
    /// Whether a hard error occurred for some language; a skip never sets
    /// this.
    pub has_errors: bool,
}

impl View for IndexBuilder {
    type V = IndexBuilderV;

    open spec fn view(&self) -> IndexBuilderV {
        IndexBuilderV {
            items: self.items@.map_values(|e: IndexEntry| e@),
            has_errors: self.has_errors,
        }
    }
}

/// The builder state a run starts from.
pub open spec fn empty_builder() -> IndexBuilderV {
    IndexBuilderV { items: Seq::empty(), has_errors: false }
}

/// One language step as the builder sees it: the language name, what
/// fetching its directory produced, and the identifier its entry would get.
pub ghost struct StepV {
    pub lang: Seq<char>,
    pub fetched: Result<Seq<ListingV>, FetchError>,
    pub id: Seq<char>,
}

/// The entry a step contributes, if its language resolved.
pub open spec fn step_entry(s: StepV) -> Option<IndexEntryV> {
    match s.fetched {
        Ok(ls) => match resolve_spec(s.lang, ls, s.id) {
            ResolutionV::Resolved(e) => Some(e),
            _ => None,
        },
        Err(_) => None,
    }
}

/// A step is hard when the fetch failed or a required file had the wrong
/// directory/file kind; a missing file is soft.
pub open spec fn step_is_hard(s: StepV) -> bool {
    match s.fetched {
        Ok(ls) => resolve_spec(s.lang, ls, s.id) is ShapeMismatch,
        Err(_) => true,
    }
}

/// How one step changes the builder: a resolved entry is appended, a hard
/// error sets the incomplete flag, and a skip changes nothing.
pub open spec fn step_spec(b: IndexBuilderV, s: StepV) -> IndexBuilderV {
    IndexBuilderV {
        items: match step_entry(s) {
            Some(e) => b.items.push(e),
            None => b.items,
        },
        has_errors: b.has_errors || step_is_hard(s),
    }
}

/// A whole run: the steps applied in order.
pub open spec fn run_spec(b: IndexBuilderV, steps: Seq<StepV>) -> IndexBuilderV
    decreases steps.len(),
{
    if steps.len() == 0 {
        b
    } else {
        run_spec(step_spec(b, steps[0]), steps.drop_first())
    }
}

/// The entries of the steps that resolved, in step order.
pub open spec fn successes(steps: Seq<StepV>) -> Seq<IndexEntryV>
    decreases steps.len(),
{
    if steps.len() == 0 {
        Seq::empty()
    } else {
        match step_entry(steps[0]) {
            Some(e) => seq![e] + successes(steps.drop_first()),
            None => successes(steps.drop_first()),
        }
    }
}

/// Some step of the run hit a hard error.
pub open spec fn any_hard(steps: Seq<StepV>) -> bool {
    exists|i: int| 0 <= i < steps.len() && step_is_hard(#[trigger] steps[i])
}

/// What a run accumulates: the items are the starting items followed by the
/// entries of the steps that resolved, in order, and the error flag is set
/// exactly when it already was or some step hit a hard error.
pub proof fn lemma_run_accumulates(b: IndexBuilderV, steps: Seq<StepV>)
    ensures
        run_spec(b, steps).items == b.items + successes(steps),
        run_spec(b, steps).has_errors == (b.has_errors || any_hard(steps)),
    decreases steps.len(),
{
    if steps.len() == 0 {
        assert(b.items + successes(steps) =~= b.items);
        assert(!any_hard(steps));
    } else {
        let s0 = steps[0];
        let rest = steps.drop_first();
        lemma_run_accumulates(step_spec(b, s0), rest);
        match step_entry(s0) {
            Some(e) => {
                assert(b.items.push(e) + successes(rest) =~= b.items + (seq![e] + successes(
                    rest,
                )));
            },
            None => {},
        }
        assert(any_hard(steps) == (step_is_hard(s0) || any_hard(rest))) by {
            if step_is_hard(s0) {
                assert(step_is_hard(steps[0]));
            }
            if any_hard(rest) {
                let i = choose|i: int| 0 <= i < rest.len() && step_is_hard(#[trigger] rest[i]);
                assert(steps[i + 1] == rest[i]);
            }
            if any_hard(steps) {
                let i = choose|i: int| 0 <= i < steps.len() && step_is_hard(#[trigger] steps[i]);
                if i > 0 {
                    assert(rest[i - 1] == steps[i]);
                    assert(step_is_hard(rest[i - 1]));
                }
            }
        }
    }
}

/// A run in which no language hit a hard error is complete: the error flag
/// stays clear, and the items are exactly the entries of the languages
/// whose file sets were complete, in discovery order.
pub proof fn lemma_complete_run(steps: Seq<StepV>)
    requires
        forall|i: int| 0 <= i < steps.len() ==> !step_is_hard(#[trigger] steps[i]),
    ensures
        run_spec(empty_builder(), steps).has_errors == false,
        run_spec(empty_builder(), steps).items == successes(steps),
{
    lemma_run_accumulates(empty_builder(), steps);
    assert(empty_builder().items + successes(steps) =~= successes(steps));
}

/// A hard error for any language leaves the whole run flagged incomplete.
pub proof fn lemma_hard_error_flags_run(steps: Seq<StepV>)
    requires
        any_hard(steps),
    ensures
        run_spec(empty_builder(), steps).has_errors,
{
    lemma_run_accumulates(empty_builder(), steps);
}

/// A soft skip leaves the builder exactly as it was: no entry, no error
/// flag.
pub proof fn lemma_skip_is_soft(b: IndexBuilderV, s: StepV)
    requires
        s.fetched matches Ok(ls) && resolve_spec(s.lang, ls, s.id) is Missing,
    ensures
        step_spec(b, s) == b,
{
}

/// A hard step adds no entry and sets the incomplete flag.
pub proof fn lemma_hard_step_marks_incomplete(b: IndexBuilderV, s: StepV)
    requires
        step_is_hard(s),
    ensures
        step_spec(b, s).has_errors,
        step_spec(b, s).items == b.items,
{
}

/// The model of what fetching one directory produced.
pub open spec fn fetched_view(f: Result<Vec<Listing>, FetchError>) -> Result<
    Seq<ListingV>,
    FetchError,
> {
    match f {
        Ok(ls) => Ok(listings_view(ls@)),
        Err(e) => Err(e),
    }
}

/// What the builder reports of one step, for the run's diagnostics.
#[derive(Debug, Clone, Copy, PartialEq, Eq)]
pub enum StepOutcome {
    /// The language resolved; its entry was added.
    Added,
    /// A required file class was missing; the language was skipped.
    Skipped(FileClass),
    /// A required file was a directory; hard error.
    ShapeFault(FileClass),
    /// The directory listing could not be fetched; hard error.
    FetchFailed(FetchError),
}

/// The outcome a step reports, one case per resolution outcome, naming the
/// file class or fetch failure the diagnostics speak of.
pub open spec fn step_outcome_spec(s: StepV) -> StepOutcome {
    match s.fetched {
        Err(e) => StepOutcome::FetchFailed(e),
        Ok(ls) => match resolve_spec(s.lang, ls, s.id) {
            ResolutionV::Resolved(_) => StepOutcome::Added,
            ResolutionV::Missing(c) => StepOutcome::Skipped(c),
            ResolutionV::ShapeMismatch(c) => StepOutcome::ShapeFault(c),
        },
    }
}

impl IndexBuilder {
    /// A builder with no entries and no errors.
    pub fn new() -> (r: IndexBuilder)
        ensures
            r@ == empty_builder(),
    {
        let r = IndexBuilder { items: Vec::new(), has_errors: false };
        proof {
            assert(r@.items =~= empty_builder().items);
        }
        r
    }

    /// Take one language step: resolve the fetched directory listing (or
    /// record the fetch failure) and fold the outcome into the state. The
    /// entry's identifier is drawn fresh here.
    pub fn add_language(&mut self, lang: &str, fetched: Result<Vec<Listing>, FetchError>) -> (r:
        StepOutcome)
        ensures
            exists|id: Seq<char>|
                #![trigger step_spec(
                    old(self)@,
                    StepV { lang: lang@, fetched: fetched_view(fetched), id: id },
                )]
                {
                    let s = StepV { lang: lang@, fetched: fetched_view(fetched), id: id };
                    &&& uuid_text(id) || fetched is Err
                    &&& final(self)@ == step_spec(old(self)@, s)
                    &&& r == step_outcome_spec(s)
                },
            (r is Added <==> final(self)@.items.len() > old(self)@.items.len()),
            (final(self)@.has_errors == (old(self)@.has_errors || r is ShapeFault
                || r is FetchFailed)),
    {
        match fetched {
            Err(e) => {
                self.has_errors = true;
                proof {
                    let s = StepV { lang: lang@, fetched: Err(e), id: Seq::empty() };
                    assert(self@ == step_spec(old(self)@, s));
                    assert(step_outcome_spec(s) == StepOutcome::FetchFailed(e));
                }
                StepOutcome::FetchFailed(e)
            },
            Ok(listing) => {
                let id = fresh_entry_id();
                let ghost idv = id@;
                match resolve_language(lang, &listing, id) {
                    Resolution::Resolved(e) => {
                        self.items.push(e);
                        proof {
                            let s = StepV {
                                lang: lang@,
                                fetched: Ok(listings_view(listing@)),
                                id: idv,
                            };
                            assert(self@.items =~= step_spec(old(self)@, s).items);
                            assert(self@ == step_spec(old(self)@, s));
                            assert(step_outcome_spec(s) == StepOutcome::Added);
                        }
                        StepOutcome::Added
                    },
                    Resolution::Missing(c) => {
                        proof {
                            let s = StepV {
                                lang: lang@,
                                fetched: Ok(listings_view(listing@)),
                                id: idv,
                            };
                            assert(self@ == step_spec(old(self)@, s));
                            assert(step_outcome_spec(s) == StepOutcome::Skipped(c));
                        }
                        StepOutcome::Skipped(c)
                    },
                    Resolution::ShapeMismatch(c) => {
                        self.has_errors = true;
                        proof {
                            let s = StepV {
                                lang: lang@,
                                fetched: Ok(listings_view(listing@)),
                                id: idv,
                            };
                            assert(self@ == step_spec(old(self)@, s));
                            assert(step_outcome_spec(s) == StepOutcome::ShapeFault(c));
                        }
                        StepOutcome::ShapeFault(c)
                    },
                }
            },
        }
    }

    /// Close the run: the finished index carries the current schema
    /// version, a fresh generation timestamp, no `retrieved` stamp, and the
    /// accumulated entries.
    pub fn finish(self) -> (r: Index)
        ensures
            r@.schema_version == INDEX_VERSION,
            r@.retrieved is None,
            r@.items == self@.items,
            timestamp_chars(r@.updated),
            r@.updated.len() > 0,
    {
        let IndexBuilder { items, has_errors: _ } = self;
        Index { schema_version: INDEX_VERSION, updated: now_utc_rfc3339(), retrieved: None, items }
    }
}

} // verus!
