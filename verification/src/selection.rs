//! Which polyfills a request needs.
//!
//! Starting from the requested features, sorted by name, selection walks the
//! names in passes. In a pass each name is excluded, replaced by its aliases,
//! dropped, or chosen together with its dependencies; passes repeat until one
//! changes nothing. Looking up a name's aliases and its configuration reads
//! the polyfill store, so the walk is a state machine: it asks for a lookup,
//! the caller performs it and hands the reply back.
use vstd::prelude::*;
use vstd::relations::sorted_by;
use indexmap::IndexSet;
use crate::flags::FlagSet;
use crate::features::{
    FeatureProperties, FeaturePropertiesView, TargetedFeatures, add_feature, remove_feature,
    merged_target,
};
use crate::names::{
    index_set_items, index_set_from, index_set_sort, index_set_strings, index_set_swap_remove,
    swap_removed, inserted, lemma_swap_removed, lemma_inserted, lemma_swap_removed_no_dup,
    lemma_inserted_no_dup,
};
use crate::params::{PolyfillParameters, ParametersView, PolyfillConfig, ConfigView};
use crate::text::{strs, str_order, contains_str, lemma_sorted_sets_equal};
use crate::ua::U;
use crate::range::version_in_range;

verus! {

/// Where a selection stands.
pub enum StageView {
    /// Walking the names; never seen between two calls.
    Scanning,
    /// Waiting for the aliases of `name`; `feature` is what is known of it.
    Aliases { name: Seq<char>, feature: FeaturePropertiesView },
    /// Waiting for the configuration of `name`; `properties` are the
    /// properties it will be added with, `targeted` whether it is already
    /// known to be needed.
    Meta {
        name: Seq<char>,
        feature: FeaturePropertiesView,
        properties: FeaturePropertiesView,
        targeted: bool,
    },
    /// Done: a whole pass changed nothing.
    Finished,
}

/// The state of a selection.
pub struct SelectionView {
    /// The names to visit, in order.
    pub names: Seq<Seq<char>>,
    /// The chosen features.
    pub targeted: Map<Seq<char>, FeaturePropertiesView>,
    /// The names chosen once already (and not to be chosen again unless
    /// flagged `always`).
    pub seen_removed: Set<Seq<char>>,
    /// The names of the current pass, as they stood when it began.
    pub pass: Seq<Seq<char>>,
    /// How many names of the current pass have been taken up.
    pub next: int,
    /// Whether the current pass changed the chosen features.
    pub changed: bool,
    pub stage: StageView,
}

/// A lookup that selection asks for.
pub enum LookupView {
    Aliases(Seq<char>),
    Meta(Seq<char>),
    Done,
}

/// A lookup's reply.
pub enum ReplyView {
    Aliases(Option<Seq<Seq<char>>>),
    Meta(Option<ConfigView>),
}

/// The flags requested with `name`.
pub open spec fn requested_flags(opts: ParametersView, name: Seq<char>) -> Set<Seq<char>> {
    if opts.features.contains_key(name) {
        opts.features[name]
    } else {
        Set::empty()
    }
}

/// What is known of `name` when a pass reaches it: its chosen properties, or
/// else the flags it was requested with and no comment.
pub open spec fn base_feature(
    targeted: Map<Seq<char>, FeaturePropertiesView>,
    opts: ParametersView,
    name: Seq<char>,
) -> FeaturePropertiesView {
    if targeted.contains_key(name) {
        targeted[name]
    } else {
        FeaturePropertiesView { flags: requested_flags(opts, name), comment: None }
    }
}

/// No flags and no comment.
pub open spec fn no_properties() -> FeaturePropertiesView {
    FeaturePropertiesView { flags: Set::empty(), comment: None }
}

/// Walking can go on from `s`: the names and the pass hold each name once,
/// and every name of the pass not yet taken up is still to be visited.
pub open spec fn scan_ready(s: SelectionView) -> bool {
    &&& s.names.no_duplicates()
    &&& s.pass.no_duplicates()
    &&& 0 <= s.next <= s.pass.len()
    &&& forall|j: int| s.next <= j < s.pass.len() ==> s.names.contains(#[trigger] s.pass[j])
}

/// Walks from `s` to the next name that needs a lookup: excluded names are
/// dropped on the way; at the end of a pass that changed something a new
/// pass begins over the names as they are; a pass that changed nothing ends
/// the selection.
pub open spec fn scan(opts: ParametersView, s: SelectionView) -> SelectionView
    decreases s.names.len() + (if s.changed { 1int } else { 0int }), s.pass.len() - s.next
    when scan_ready(s)
{
    if s.next < s.pass.len() {
        let name = s.pass[s.next];
        if opts.excludes.contains(name) {
            proof {
                lemma_swap_removed(s.names, name);
            }
            scan(
                opts,
                SelectionView {
                    names: swap_removed(s.names, name),
                    targeted: s.targeted.remove(name),
                    changed: s.changed || s.targeted.contains_key(name),
                    next: s.next + 1,
                    ..s
                },
            )
        } else {
            SelectionView {
                next: s.next + 1,
                stage: StageView::Aliases { name, feature: base_feature(s.targeted, opts, name) },
                ..s
            }
        }
    } else if s.changed {
        scan(opts, SelectionView { pass: s.names, next: 0, changed: false, ..s })
    } else {
        SelectionView { stage: StageView::Finished, ..s }
    }
}

/// Adds each name of `list` in turn, as `add_feature` does, with `flags`
/// and `props`; the flag says whether some name was new.
pub open spec fn add_features(
    names: Seq<Seq<char>>,
    targeted: Map<Seq<char>, FeaturePropertiesView>,
    changed: bool,
    list: Seq<Seq<char>>,
    flags: Set<Seq<char>>,
    props: FeaturePropertiesView,
) -> (Seq<Seq<char>>, Map<Seq<char>, FeaturePropertiesView>, bool)
    decreases list.len(),
{
    if list.len() == 0 {
        (names, targeted, changed)
    } else {
        let prev = add_features(names, targeted, changed, list.drop_last(), flags, props);
        let x = list.last();
        (inserted(prev.0, x), merged_target(prev.1, x, flags, props), prev.2 || !prev.1.contains_key(x))
    }
}

/// Whether the configuration's browsers give the user agent's family a
/// range that its version lies in.
pub open spec fn browser_match(ua: U, browsers: Option<Map<Seq<char>, Seq<char>>>) -> bool {
    match browsers {
        Some(b) => {
            let family = ua.parsed().family@;
            b.contains_key(family) && version_in_range(
                ua.parsed().major,
                ua.parsed().minor,
                ua.parsed().patch,
                b[family],
            )
        },
        None => false,
    }
}

/// The state once the aliases of the awaited name came: a name with
/// aliases is replaced by them, each added with the name's flags; a name
/// without aliases is next looked up for its configuration, and is already
/// needed if flagged `always`, or gated if the browser is unknown and the
/// request asks to polyfill unknown browsers.
pub open spec fn after_aliases(
    opts: ParametersView,
    ua: U,
    s: SelectionView,
    aliases: Seq<Seq<char>>,
) -> SelectionView
    recommends
        s.stage is Aliases,
{
    let name = s.stage->Aliases_name;
    let feature = s.stage->Aliases_feature;
    if aliases.len() > 0 {
        let r = add_features(
            swap_removed(s.names, name),
            s.targeted,
            s.changed,
            aliases,
            feature.flags,
            no_properties(),
        );
        scan(opts, SelectionView { names: r.0, targeted: r.1, changed: r.2, stage: StageView::Scanning, ..s })
    } else {
        let always = feature.flags.contains("always"@);
        let gate = !always && opts.unknown == "polyfill"@ && ua.parsed().unknown;
        let properties = FeaturePropertiesView {
            flags: if gate { Set::empty().insert("gated"@) } else { Set::empty() },
            comment: None,
        };
        SelectionView {
            stage: StageView::Meta { name, feature, properties, targeted: always || gate },
            ..s
        }
    }
}

/// The state once the configuration of the awaited name came. Without a
/// configuration the name is kept (moved to the end) with its properties. A
/// needed name (already, or because the browser's version is in the
/// configuration's range for its family) is chosen with its flags and
/// properties, and so are its dependencies, unless it was chosen before and
/// is not flagged `always`. A name not needed is dropped, unless it was
/// chosen with the flag `always`.
pub open spec fn after_meta(
    opts: ParametersView,
    ua: U,
    s: SelectionView,
    meta: Option<ConfigView>,
) -> SelectionView
    recommends
        s.stage is Meta,
{
    let name = s.stage->Meta_name;
    let feature = s.stage->Meta_feature;
    let properties = s.stage->Meta_properties;
    let scanning = SelectionView { stage: StageView::Scanning, ..s };
    match meta {
        None => scan(
            opts,
            SelectionView {
                names: inserted(swap_removed(s.names, name), name),
                targeted: merged_target(s.targeted, name, Set::empty(), properties),
                changed: s.changed || !s.targeted.contains_key(name),
                ..scanning
            },
        ),
        Some(m) => {
            if s.stage->Meta_targeted || browser_match(ua, m.browsers) {
                if feature.flags.contains("always"@) || !s.seen_removed.contains(name) {
                    let deps = match m.dependencies {
                        Some(d) => d,
                        None => Seq::empty(),
                    };
                    let r = add_features(
                        inserted(swap_removed(s.names, name), name),
                        merged_target(s.targeted, name, feature.flags, properties),
                        s.changed || !s.targeted.contains_key(name),
                        deps,
                        feature.flags,
                        properties,
                    );
                    scan(
                        opts,
                        SelectionView {
                            names: r.0,
                            targeted: r.1,
                            changed: r.2,
                            seen_removed: s.seen_removed.insert(name),
                            ..scanning
                        },
                    )
                } else {
                    scan(opts, scanning)
                }
            } else if s.targeted.contains_key(name) && s.targeted[name].flags.contains("always"@) {
                scan(opts, scanning)
            } else {
                scan(
                    opts,
                    SelectionView {
                        names: swap_removed(s.names, name),
                        targeted: s.targeted.remove(name),
                        changed: s.changed || s.targeted.contains_key(name),
                        ..scanning
                    },
                )
            }
        },
    }
}

/// The state after a reply; a reply of the other kind than the one awaited
/// changes nothing.
pub open spec fn step(opts: ParametersView, ua: U, s: SelectionView, reply: ReplyView) -> SelectionView {
    match (s.stage, reply) {
        (StageView::Aliases { .. }, ReplyView::Aliases(a)) => after_aliases(
            opts,
            ua,
            s,
            match a {
                Some(l) => l,
                None => Seq::empty(),
            },
        ),
        (StageView::Meta { .. }, ReplyView::Meta(m)) => after_meta(opts, ua, s, m),
        _ => s,
    }
}

/// The lookup that a stage waits for.
pub open spec fn stage_lookup(stage: StageView) -> LookupView {
    match stage {
        StageView::Aliases { name, .. } => LookupView::Aliases(name),
        StageView::Meta { name, .. } => LookupView::Meta(name),
        _ => LookupView::Done,
    }
}

/// The lookup that a state waits for.
pub open spec fn pending(s: SelectionView) -> LookupView {
    stage_lookup(s.stage)
}

/// The requested names, each once, sorted.
pub open spec fn sorted_names(opts: ParametersView) -> Seq<Seq<char>> {
    choose|s: Seq<Seq<char>>|
        s.no_duplicates() && s.to_set() == opts.features.dom() && sorted_by(s, str_order())
}

/// The state before the first pass: every requested name to visit, nothing
/// chosen.
pub open spec fn initial(opts: ParametersView) -> SelectionView {
    SelectionView {
        names: sorted_names(opts),
        targeted: Map::empty(),
        seen_removed: Set::empty(),
        pass: sorted_names(opts),
        next: 0,
        changed: false,
        stage: StageView::Scanning,
    }
}

/// A state between two calls: ready to walk on, and waiting for a lookup of
/// the last name taken up, or finished.
pub open spec fn settled(s: SelectionView) -> bool {
    &&& scan_ready(s)
    &&& match s.stage {
        StageView::Aliases { name, .. } => 1 <= s.next && s.pass[s.next - 1] == name,
        StageView::Meta { name, .. } => 1 <= s.next && s.pass[s.next - 1] == name,
        StageView::Finished => true,
        StageView::Scanning => false,
    }
}

/// Walking ends in a settled state.
pub proof fn lemma_scan_settles(opts: ParametersView, s: SelectionView)
    requires
        scan_ready(s),
    ensures
        settled(scan(opts, s)),
        scan(opts, s).stage !is Scanning,
    decreases s.names.len() + (if s.changed { 1int } else { 0int }), s.pass.len() - s.next,
{
    if s.next < s.pass.len() {
        let name = s.pass[s.next];
        if opts.excludes.contains(name) {
            lemma_swap_removed(s.names, name);
            let s2 = SelectionView {
                names: swap_removed(s.names, name),
                targeted: s.targeted.remove(name),
                changed: s.changed || s.targeted.contains_key(name),
                next: s.next + 1,
                ..s
            };
            assert forall|j: int| s2.next <= j < s2.pass.len() implies s2.names.contains(#[trigger] s2.pass[j]) by {
                assert(s.names.contains(s.pass[j]));
                assert(s.pass[j] != name);
            }
            lemma_scan_settles(opts, s2);
        }
    } else if s.changed {
        let s2 = SelectionView { pass: s.names, next: 0, changed: false, ..s };
        assert forall|j: int| s2.next <= j < s2.pass.len() implies s2.names.contains(#[trigger] s2.pass[j]) by {}
        lemma_scan_settles(opts, s2);
    }
}

/// Adding names keeps every name there was.
pub proof fn lemma_add_features_keeps(
    names: Seq<Seq<char>>,
    targeted: Map<Seq<char>, FeaturePropertiesView>,
    changed: bool,
    list: Seq<Seq<char>>,
    flags: Set<Seq<char>>,
    props: FeaturePropertiesView,
)
    ensures
        forall|y: Seq<char>| names.contains(y) ==> #[trigger] add_features(names, targeted, changed, list, flags, props).0.contains(y),
    decreases list.len(),
{
    if list.len() > 0 {
        lemma_add_features_keeps(names, targeted, changed, list.drop_last(), flags, props);
        let prev = add_features(names, targeted, changed, list.drop_last(), flags, props);
        lemma_inserted(prev.0, list.last());
    }
}

/// Adding names keeps the names free of duplicates.
pub proof fn lemma_add_features_no_dup(
    names: Seq<Seq<char>>,
    targeted: Map<Seq<char>, FeaturePropertiesView>,
    changed: bool,
    list: Seq<Seq<char>>,
    flags: Set<Seq<char>>,
    props: FeaturePropertiesView,
)
    requires
        names.no_duplicates(),
    ensures
        add_features(names, targeted, changed, list, flags, props).0.no_duplicates(),
    decreases list.len(),
{
    if list.len() > 0 {
        lemma_add_features_no_dup(names, targeted, changed, list.drop_last(), flags, props);
        let prev = add_features(names, targeted, changed, list.drop_last(), flags, props);
        lemma_inserted_no_dup(prev.0, list.last());
    }
}

/// Where selection stands (the executable counterpart of `StageView`).
pub enum Stage {
    Scanning,
    Aliases { name: String, feature: FeatureProperties },
    Meta { name: String, feature: FeatureProperties, properties: FeatureProperties, targeted: bool },
    Finished,
}

impl View for Stage {
    type V = StageView;

    open spec fn view(&self) -> StageView {
        match self {
            Stage::Scanning => StageView::Scanning,
            Stage::Aliases { name, feature } => StageView::Aliases { name: name@, feature: feature@ },
            Stage::Meta { name, feature, properties, targeted } => StageView::Meta {
                name: name@,
                feature: feature@,
                properties: properties@,
                targeted: *targeted,
            },
            Stage::Finished => StageView::Finished,
        }
    }
}

/// A lookup that selection asks the caller to perform.
#[derive(Debug)]
pub enum Lookup {
    /// Read the aliases of this name.
    Aliases(String),
    /// Read the configuration of this polyfill.
    Meta(String),
    /// Nothing more: the selection is finished.
    Done,
}

impl View for Lookup {
    type V = LookupView;

    open spec fn view(&self) -> LookupView {
        match self {
            Lookup::Aliases(n) => LookupView::Aliases(n@),
            Lookup::Meta(n) => LookupView::Meta(n@),
            Lookup::Done => LookupView::Done,
        }
    }
}

/// The result of a lookup.
pub enum Reply {
    /// The aliases of the name, if it has an entry.
    Aliases(Option<Vec<String>>),
    /// The configuration of the polyfill, if it has one.
    Meta(Option<PolyfillConfig>),
}

impl View for Reply {
    type V = ReplyView;

    open spec fn view(&self) -> ReplyView {
        match self {
            Reply::Aliases(a) => ReplyView::Aliases(
                match a {
                    Some(l) => Some(strs(l@)),
                    None => None,
                },
            ),
            Reply::Meta(m) => ReplyView::Meta(
                match m {
                    Some(c) => Some(c@),
                    None => None,
                },
            ),
        }
    }
}

/// A selection of polyfills in progress.
pub struct Selection {
    feature_names: IndexSet<String>,
    targeted_features: TargetedFeatures,
    seen_removed: FlagSet,
    pass: Vec<String>,
    next: usize,
    changed: bool,
    stage: Stage,
}

impl View for Selection {
    type V = SelectionView;

    closed spec fn view(&self) -> SelectionView {
        SelectionView {
            names: index_set_items(self.feature_names),
            targeted: self.targeted_features@,
            seen_removed: self.seen_removed@,
            pass: strs(self.pass@),
            next: self.next as int,
            changed: self.changed,
            stage: self.stage@,
        }
    }
}

fn lookup_of(stage: &Stage) -> (r: Lookup)
    ensures
        r@ == stage_lookup(stage@),
{
    match stage {
        Stage::Aliases { name, .. } => Lookup::Aliases(name.clone()),
        Stage::Meta { name, .. } => Lookup::Meta(name.clone()),
        _ => Lookup::Done,
    }
}

impl Selection {
    /// Between two calls a selection is settled.
    pub open spec fn wf(&self) -> bool {
        settled(self@)
    }

    /// The flags requested with `name`.
    fn requested(options: &PolyfillParameters, name: &String) -> (flags: FlagSet)
        ensures
            flags@ == requested_flags(options@, name@),
    {
        match options.features.get(name) {
            Some(f) => f.duplicate(),
            None => FlagSet::new(),
        }
    }

    /// Walks on to the next name that needs a lookup (see `scan`).
    fn advance(&mut self, options: &PolyfillParameters)
        requires
            scan_ready(old(self)@),
        ensures
            final(self)@ == scan(options@, old(self)@),
    {
        let ghost target = scan(options@, old(self)@);
        loop
            invariant
                scan_ready(self@),
                scan(options@, self@) == target,
                target == scan(options@, old(self)@),
            decreases
                index_set_items(self.feature_names).len() + (if self.changed { 1int } else { 0int }),
                self.pass@.len() - self.next,
        {
            let ghost before = self@;
            if self.next < self.pass.len() {
                let name = self.pass[self.next].clone();
                assert(name@ == before.pass[before.next]);
                if contains_str(&options.excludes, &name) {
                    proof { lemma_swap_removed(before.names, name@); }
                    let was = remove_feature(&name, &mut self.feature_names, &mut self.targeted_features);
                    self.changed = self.changed || was;
                    self.next = self.next + 1;
                    assert forall|j: int| self@.next <= j < self@.pass.len() implies
                        self@.names.contains(#[trigger] self@.pass[j]) by {
                        assert(before.names.contains(before.pass[j]));
                        assert(before.pass[j] != name@);
                    }
                    assert(self@ == SelectionView {
                        names: swap_removed(before.names, name@),
                        targeted: before.targeted.remove(name@),
                        changed: before.changed || before.targeted.contains_key(name@),
                        next: before.next + 1,
                        ..before
                    });
                } else {
                    let feature = match self.targeted_features.get(&name) {
                        Some(f) => f.duplicate(),
                        None => FeatureProperties { flags: Self::requested(options, &name), comment: None },
                    };
                    let ghost fv = feature@;
                    let ghost nv = name@;
                    assert(!options@.excludes.contains(nv));
                    assert(fv == base_feature(before.targeted, options@, nv));
                    self.next = self.next + 1;
                    self.stage = Stage::Aliases { name, feature };
                    assert(self@ == SelectionView {
                        next: before.next + 1,
                        stage: StageView::Aliases { name: nv, feature: fv },
                        ..before
                    });
                    assert(self@ == scan(options@, before));
                    return;
                }
            } else if self.changed {
                self.pass = index_set_strings(&self.feature_names);
                self.next = 0;
                self.changed = false;
                assert forall|j: int| self@.next <= j < self@.pass.len() implies
                    self@.names.contains(#[trigger] self@.pass[j]) by {}
            } else {
                self.stage = Stage::Finished;
                assert(self@ == SelectionView { stage: StageView::Finished, ..before });
                assert(self@ == scan(options@, before));
                return;
            }
        }
    }

    /// Adds each name of `list` in turn with `add_feature` (see `add_features`).
    fn add_all(&mut self, list: &Vec<String>, flags: &FlagSet, props: &FeatureProperties)
        ensures
            (final(self)@.names, final(self)@.targeted, final(self)@.changed) == add_features(
                old(self)@.names,
                old(self)@.targeted,
                old(self)@.changed,
                strs(list@),
                flags@,
                props@,
            ),
            old(self)@.names.no_duplicates() ==> final(self)@.names.no_duplicates(),
            final(self)@ == (SelectionView {
                names: final(self)@.names,
                targeted: final(self)@.targeted,
                changed: final(self)@.changed,
                ..old(self)@
            }),
    {
        let mut i: usize = 0;
        while i < list.len()
            invariant
                i <= list.len(),
                (self@.names, self@.targeted, self@.changed) == add_features(
                    old(self)@.names,
                    old(self)@.targeted,
                    old(self)@.changed,
                    strs(list@).take(i as int),
                    flags@,
                    props@,
                ),
                old(self)@.names.no_duplicates() ==> self@.names.no_duplicates(),
                self@ == (SelectionView {
                    names: self@.names,
                    targeted: self@.targeted,
                    changed: self@.changed,
                    ..old(self)@
                }),
            decreases list.len() - i,
        {
            let was = add_feature(
                &list[i],
                flags,
                props.duplicate(),
                &mut self.feature_names,
                &mut self.targeted_features,
            );
            self.changed = self.changed || was;
            assert(strs(list@).take(i + 1).drop_last() =~= strs(list@).take(i as int));
            assert(strs(list@).take(i + 1).last() == list@[i as int]@);
            i = i + 1;
        }
        assert(strs(list@).take(list.len() as int) =~= strs(list@));
    }

    /// Starts a selection over the requested features: walks to the first
    /// name that needs a lookup and returns that lookup.
    pub fn start(options: &PolyfillParameters) -> (r: (Selection, Lookup))
        ensures
            r.0.wf(),
            r.0@ == scan(options@, initial(options@)),
            r.1@ == pending(r.0@),
            !asks_excluded(options@, r.0@),
            exclusions_tracked(options@, r.0@),
    {
        broadcast use vstd::seq_lib::group_to_multiset_ensures;
        let keys = options.features.names();
        let mut names = index_set_from(keys);
        let ghost unsorted = index_set_items(names);
        index_set_sort(&mut names);
        let pass = index_set_strings(&names);
        let mut sel = Selection {
            feature_names: names,
            targeted_features: TargetedFeatures::new(),
            seen_removed: FlagSet::new(),
            pass,
            next: 0,
            changed: false,
            stage: Stage::Scanning,
        };
        proof {
            let items = index_set_items(sel.feature_names);
            assert(unsorted == strs(keys@));
            assert forall|a: Seq<char>| items.contains(a) <==> unsorted.contains(a) by {
                assert(items.contains(a) <==> items.to_multiset().count(a) > 0);
                assert(unsorted.contains(a) <==> unsorted.to_multiset().count(a) > 0);
            }
            assert(items.to_set() =~= options@.features.dom());
            let c = sorted_names(options@);
            assert(c.no_duplicates() && c.to_set() == options@.features.dom() && sorted_by(c, str_order()));
            lemma_sorted_sets_equal(c, items);
            assert(sel@ == initial(options@));
            assert forall|j: int| sel@.next <= j < sel@.pass.len() implies
                sel@.names.contains(#[trigger] sel@.pass[j]) by {}
        }
        sel.advance(options);
        proof {
            lemma_scan_settles(options@, initial(options@));
            lemma_scan_skips_excluded(options@, initial(options@));
            lemma_scan_tracks(options@, initial(options@));
        }
        let l = lookup_of(&sel.stage);
        (sel, l)
    }

    /// The state once the aliases of `name` came (see `after_aliases`).
    fn on_aliases(
        &mut self,
        options: &PolyfillParameters,
        ua: &U,
        name: String,
        feature: FeatureProperties,
        aliases: Option<Vec<String>>,
    )
        requires
            settled(awaiting_aliases(old(self)@, name@, feature@)),
        ensures
            final(self)@ == after_aliases(
                options@,
                *ua,
                awaiting_aliases(old(self)@, name@, feature@),
                alias_list(aliases),
            ),
    {
        let ghost s0 = awaiting_aliases(self@, name@, feature@);
        let list = match aliases {
            Some(l) => l,
            None => Vec::new(),
        };
        assert(strs(list@) == alias_list(aliases));
        if list.len() > 0 {
            proof { lemma_swap_removed(s0.names, name@); }
            self.stage = Stage::Scanning;
            index_set_swap_remove(&mut self.feature_names, &name);
            let ghost names1 = self@.names;
            let empty = FeatureProperties::empty();
            self.add_all(&list, &feature.flags, &empty);
            proof {
                lemma_add_features_keeps(names1, s0.targeted, s0.changed, strs(list@), feature@.flags, empty@);
                assert forall|j: int| self@.next <= j < self@.pass.len() implies
                    self@.names.contains(#[trigger] self@.pass[j]) by {
                    assert(s0.names.contains(s0.pass[j]));
                    assert(s0.pass[j] != name@);
                    assert(names1.contains(s0.pass[j]));
                }
                assert(empty@ == no_properties());
                let r = add_features(swap_removed(s0.names, name@), s0.targeted, s0.changed, strs(list@), feature@.flags, no_properties());
                assert(self@ == (SelectionView { names: r.0, targeted: r.1, changed: r.2, stage: StageView::Scanning, ..s0 }));
            }
            self.advance(options);
        } else {
            let always_flag = String::from_str("always");
            let always = feature.flags.contains(&always_flag);
            let polyfill = String::from_str("polyfill");
            let gate = !always && options.unknown == polyfill && ua.is_unknown();
            let mut flags = FlagSet::new();
            if gate {
                flags.insert(String::from_str("gated"));
            }
            let properties = FeatureProperties { flags, comment: None };
            self.stage = Stage::Meta { name, feature, properties, targeted: always || gate };
        }
    }

    /// The state once the configuration of `name` came (see `after_meta`).
    fn on_meta(
        &mut self,
        options: &PolyfillParameters,
        ua: &U,
        name: String,
        feature: FeatureProperties,
        properties: FeatureProperties,
        targeted: bool,
        meta: Option<PolyfillConfig>,
    )
        requires
            settled(awaiting_meta(old(self)@, name@, feature@, properties@, targeted)),
        ensures
            final(self)@ == after_meta(
                options@,
                *ua,
                awaiting_meta(old(self)@, name@, feature@, properties@, targeted),
                meta_view(meta),
            ),
    {
        let ghost s0 = awaiting_meta(self@, name@, feature@, properties@, targeted);
        proof { lemma_swap_removed(s0.names, name@); }
        self.stage = Stage::Scanning;
        match meta {
            None => {
                index_set_swap_remove(&mut self.feature_names, &name);
                proof { lemma_inserted(swap_removed(s0.names, name@), name@); }
                let no_flags = FlagSet::new();
                let was = add_feature(&name, &no_flags, properties, &mut self.feature_names, &mut self.targeted_features);
                self.changed = self.changed || was;
            },
            Some(m) => {
                let mut hit = targeted;
                if !hit {
                    match &m.browsers {
                        Some(b) => {
                            let family = ua.get_family();
                            match b.get(&family) {
                                Some(range) => {
                                    hit = ua.satisfies(range.clone());
                                },
                                None => {},
                            }
                        },
                        None => {},
                    }
                }
                assert(hit == (targeted || browser_match(*ua, m@.browsers)));
                let always_flag = String::from_str("always");
                if hit {
                    let always = feature.flags.contains(&always_flag);
                    if always || !self.seen_removed.contains(&name) {
                        self.seen_removed.insert(name.clone());
                        index_set_swap_remove(&mut self.feature_names, &name);
                        proof { lemma_inserted(swap_removed(s0.names, name@), name@); }
                        let was = add_feature(
                            &name,
                            &feature.flags,
                            properties.duplicate(),
                            &mut self.feature_names,
                            &mut self.targeted_features,
                        );
                        self.changed = self.changed || was;
                        let ghost names1 = self@.names;
                        let ghost targeted1 = self@.targeted;
                        let ghost changed1 = self@.changed;
                        let deps = match m.dependencies {
                            Some(d) => d,
                            None => Vec::new(),
                        };
                        assert(strs(deps@) == (match m@.dependencies {
                            Some(d) => d,
                            None => Seq::<Seq<char>>::empty(),
                        }));
                        self.add_all(&deps, &feature.flags, &properties);
                        proof {
                            lemma_add_features_keeps(names1, targeted1, changed1, strs(deps@), feature@.flags, properties@);
                        }
                    }
                } else {
                    let keep = match self.targeted_features.get(&name) {
                        Some(f) => f.flags.contains(&always_flag),
                        None => false,
                    };
                    if !keep {
                        let was = remove_feature(&name, &mut self.feature_names, &mut self.targeted_features);
                        self.changed = self.changed || was;
                    }
                }
            },
        }
        assert forall|j: int| self@.next <= j < self@.pass.len() implies
            self@.names.contains(#[trigger] self@.pass[j]) by {
            assert(s0.names.contains(s0.pass[j]));
            assert(s0.pass[j] != name@);
        }
        self.advance(options);
    }

    /// Takes in the reply to the lookup the selection waits for, walks on,
    /// and returns the next lookup. A reply of the other kind is ignored.
    pub fn resume(&mut self, options: &PolyfillParameters, ua: &U, reply: Reply) -> (r: Lookup)
        requires
            old(self).wf(),
        ensures
            final(self).wf(),
            final(self)@ == step(options@, *ua, old(self)@, reply@),
            r@ == pending(final(self)@),
            !asks_excluded(options@, old(self)@) ==> !asks_excluded(options@, final(self)@),
            !asks_excluded(options@, old(self)@) && exclusions_tracked(options@, old(self)@)
                ==> exclusions_tracked(options@, final(self)@),
    {
        let mut stage = Stage::Scanning;
        std::mem::swap(&mut stage, &mut self.stage);
        let ghost s0 = old(self)@;
        match stage {
            Stage::Aliases { name, feature } => match reply {
                Reply::Aliases(a) => {
                    assert(awaiting_aliases(self@, name@, feature@) == s0);
                    let ghost av = alias_list(a);
                    self.on_aliases(options, ua, name, feature, a);
                    proof { lemma_after_aliases_settles(options@, *ua, s0, av); }
                },
                Reply::Meta(_) => {
                    self.stage = Stage::Aliases { name, feature };
                },
            },
            Stage::Meta { name, feature, properties, targeted } => match reply {
                Reply::Meta(m) => {
                    assert(awaiting_meta(self@, name@, feature@, properties@, targeted) == s0);
                    let ghost mv = meta_view(m);
                    self.on_meta(options, ua, name, feature, properties, targeted, m);
                    proof { lemma_after_meta_settles(options@, *ua, s0, mv); }
                },
                Reply::Aliases(_) => {
                    self.stage = Stage::Meta { name, feature, properties, targeted };
                },
            },
            other => {
                self.stage = other;
            },
        }
        proof {
            if !asks_excluded(options@, s0) {
                lemma_never_asks_excluded(options@, *ua, s0, reply@);
                if exclusions_tracked(options@, s0) {
                    lemma_step_tracks(options@, *ua, s0, reply@);
                }
            }
        }
        lookup_of(&self.stage)
    }

    /// The lookup the selection waits for.
    pub fn pending_lookup(&self) -> (r: Lookup)
        ensures
            r@ == pending(self@),
    {
        lookup_of(&self.stage)
    }

    /// The chosen features.
    pub fn into_targeted(self) -> (t: TargetedFeatures)
        ensures
            t@ == self@.targeted,
    {
        self.targeted_features
    }
}

/// The aliases of a reply, none for a name without an entry.
pub open spec fn alias_list(a: Option<Vec<String>>) -> Seq<Seq<char>> {
    match a {
        Some(l) => strs(l@),
        None => Seq::empty(),
    }
}

/// The configuration of a reply.
pub open spec fn meta_view(m: Option<PolyfillConfig>) -> Option<ConfigView> {
    match m {
        Some(c) => Some(c@),
        None => None,
    }
}

/// `s` waiting for the aliases of `name`.
pub open spec fn awaiting_aliases(s: SelectionView, name: Seq<char>, feature: FeaturePropertiesView) -> SelectionView {
    SelectionView { stage: StageView::Aliases { name, feature }, ..s }
}

/// `s` waiting for the configuration of `name`.
pub open spec fn awaiting_meta(
    s: SelectionView,
    name: Seq<char>,
    feature: FeaturePropertiesView,
    properties: FeaturePropertiesView,
    targeted: bool,
) -> SelectionView {
    SelectionView { stage: StageView::Meta { name, feature, properties, targeted }, ..s }
}

/// A settled state stays settled after the aliases come.
pub proof fn lemma_after_aliases_settles(opts: ParametersView, ua: U, s: SelectionView, aliases: Seq<Seq<char>>)
    requires
        settled(s),
        s.stage is Aliases,
    ensures
        settled(after_aliases(opts, ua, s, aliases)),
{
    let name = s.stage->Aliases_name;
    let feature = s.stage->Aliases_feature;
    if aliases.len() > 0 {
        lemma_swap_removed(s.names, name);
        let r = add_features(swap_removed(s.names, name), s.targeted, s.changed, aliases, feature.flags, no_properties());
        lemma_add_features_keeps(swap_removed(s.names, name), s.targeted, s.changed, aliases, feature.flags, no_properties());
        lemma_add_features_no_dup(swap_removed(s.names, name), s.targeted, s.changed, aliases, feature.flags, no_properties());
        let s2 = SelectionView { names: r.0, targeted: r.1, changed: r.2, stage: StageView::Scanning, ..s };
        assert forall|j: int| s2.next <= j < s2.pass.len() implies s2.names.contains(#[trigger] s2.pass[j]) by {
            assert(s.names.contains(s.pass[j]));
            assert(s.pass[j] != name);
            assert(swap_removed(s.names, name).contains(s.pass[j]));
        }
        lemma_scan_settles(opts, s2);
    }
}

/// A settled state stays settled after the configuration comes.
pub proof fn lemma_after_meta_settles(opts: ParametersView, ua: U, s: SelectionView, meta: Option<ConfigView>)
    requires
        settled(s),
        s.stage is Meta,
    ensures
        settled(after_meta(opts, ua, s, meta)),
{
    let name = s.stage->Meta_name;
    let feature = s.stage->Meta_feature;
    let properties = s.stage->Meta_properties;
    let scanning = SelectionView { stage: StageView::Scanning, ..s };
    lemma_swap_removed(s.names, name);
    lemma_inserted(swap_removed(s.names, name), name);
    lemma_inserted_no_dup(swap_removed(s.names, name), name);
    assert forall|j: int| s.next <= j < s.pass.len() implies
        #[trigger] swap_removed(s.names, name).contains(s.pass[j]) by {
        assert(s.names.contains(s.pass[j]));
        assert(s.pass[j] != name);
    }
    assert(scan_ready(scanning));
    match meta {
        None => {
            let s2 = SelectionView {
                names: inserted(swap_removed(s.names, name), name),
                targeted: merged_target(s.targeted, name, Set::empty(), properties),
                changed: s.changed || !s.targeted.contains_key(name),
                ..scanning
            };
            assert forall|j: int| s2.next <= j < s2.pass.len() implies s2.names.contains(#[trigger] s2.pass[j]) by {
                assert(swap_removed(s.names, name).contains(s.pass[j]));
            }
            lemma_scan_settles(opts, s2);
        },
        Some(m) => {
            if s.stage->Meta_targeted || browser_match(ua, m.browsers) {
                if feature.flags.contains("always"@) || !s.seen_removed.contains(name) {
                    let deps = match m.dependencies {
                        Some(d) => d,
                        None => Seq::empty(),
                    };
                    let n0 = inserted(swap_removed(s.names, name), name);
                    let t0 = merged_target(s.targeted, name, feature.flags, properties);
                    let c0 = s.changed || !s.targeted.contains_key(name);
                    lemma_add_features_keeps(n0, t0, c0, deps, feature.flags, properties);
                    lemma_add_features_no_dup(n0, t0, c0, deps, feature.flags, properties);
                    let r = add_features(n0, t0, c0, deps, feature.flags, properties);
                    let s2 = SelectionView {
                        names: r.0,
                        targeted: r.1,
                        changed: r.2,
                        seen_removed: s.seen_removed.insert(name),
                        ..scanning
                    };
                    assert forall|j: int| s2.next <= j < s2.pass.len() implies s2.names.contains(#[trigger] s2.pass[j]) by {
                        assert(swap_removed(s.names, name).contains(s.pass[j]));
                        assert(n0.contains(s.pass[j]));
                    }
                    lemma_scan_settles(opts, s2);
                } else {
                    lemma_scan_settles(opts, scanning);
                }
            } else if s.targeted.contains_key(name) && s.targeted[name].flags.contains("always"@) {
                lemma_scan_settles(opts, scanning);
            } else {
                let s2 = SelectionView {
                    names: swap_removed(s.names, name),
                    targeted: s.targeted.remove(name),
                    changed: s.changed || s.targeted.contains_key(name),
                    ..scanning
                };
                lemma_swap_removed_no_dup(s.names, name);
                lemma_scan_settles(opts, s2);
            }
        },
    }
}

/// Whether `s` waits for a lookup of an excluded name.
pub open spec fn asks_excluded(opts: ParametersView, s: SelectionView) -> bool {
    match s.stage {
        StageView::Aliases { name, .. } => opts.excludes.contains(name),
        StageView::Meta { name, .. } => opts.excludes.contains(name),
        _ => false,
    }
}

/// Walking never stops at an excluded name.
pub proof fn lemma_scan_skips_excluded(opts: ParametersView, s: SelectionView)
    requires
        scan_ready(s),
    ensures
        !asks_excluded(opts, scan(opts, s)),
    decreases s.names.len() + (if s.changed { 1int } else { 0int }), s.pass.len() - s.next,
{
    if s.next < s.pass.len() {
        let name = s.pass[s.next];
        if opts.excludes.contains(name) {
            lemma_swap_removed(s.names, name);
            let s2 = SelectionView {
                names: swap_removed(s.names, name),
                targeted: s.targeted.remove(name),
                changed: s.changed || s.targeted.contains_key(name),
                next: s.next + 1,
                ..s
            };
            assert forall|j: int| s2.next <= j < s2.pass.len() implies s2.names.contains(#[trigger] s2.pass[j]) by {
                assert(s.names.contains(s.pass[j]));
                assert(s.pass[j] != name);
            }
            lemma_scan_skips_excluded(opts, s2);
        }
    } else if s.changed {
        let s2 = SelectionView { pass: s.names, next: 0, changed: false, ..s };
        assert forall|j: int| s2.next <= j < s2.pass.len() implies s2.names.contains(#[trigger] s2.pass[j]) by {}
        lemma_scan_skips_excluded(opts, s2);
    }
}

/// Selection never asks to look up an excluded feature: no reply leads
/// from a state that does not to one that does.
pub proof fn lemma_never_asks_excluded(opts: ParametersView, ua: U, s: SelectionView, reply: ReplyView)
    requires
        settled(s),
        !asks_excluded(opts, s),
    ensures
        !asks_excluded(opts, step(opts, ua, s, reply)),
{
    match (s.stage, reply) {
        (StageView::Aliases { name, feature }, ReplyView::Aliases(a)) => {
            let list = match a {
                Some(l) => l,
                None => Seq::empty(),
            };
            if list.len() > 0 {
                lemma_swap_removed(s.names, name);
                lemma_add_features_keeps(swap_removed(s.names, name), s.targeted, s.changed, list, feature.flags, no_properties());
                lemma_add_features_no_dup(swap_removed(s.names, name), s.targeted, s.changed, list, feature.flags, no_properties());
                let r = add_features(swap_removed(s.names, name), s.targeted, s.changed, list, feature.flags, no_properties());
                let s2 = SelectionView { names: r.0, targeted: r.1, changed: r.2, stage: StageView::Scanning, ..s };
                assert forall|j: int| s2.next <= j < s2.pass.len() implies s2.names.contains(#[trigger] s2.pass[j]) by {
                    assert(s.names.contains(s.pass[j]));
                    assert(s.pass[j] != name);
                    assert(swap_removed(s.names, name).contains(s.pass[j]));
                }
                lemma_scan_skips_excluded(opts, s2);
            }
        },
        (StageView::Meta { .. }, ReplyView::Meta(m)) => {
            lemma_after_meta_settles(opts, ua, s, m);
            lemma_after_meta_scans(opts, ua, s, m);
        },
        _ => {},
    }
}

/// After a configuration comes, the state is where a walk ended.
proof fn lemma_after_meta_scans(opts: ParametersView, ua: U, s: SelectionView, meta: Option<ConfigView>)
    requires
        settled(s),
        s.stage is Meta,
    ensures
        !asks_excluded(opts, after_meta(opts, ua, s, meta)),
{
    let name = s.stage->Meta_name;
    let feature = s.stage->Meta_feature;
    let properties = s.stage->Meta_properties;
    let scanning = SelectionView { stage: StageView::Scanning, ..s };
    lemma_swap_removed(s.names, name);
    lemma_inserted(swap_removed(s.names, name), name);
    lemma_inserted_no_dup(swap_removed(s.names, name), name);
    lemma_swap_removed_no_dup(s.names, name);
    assert forall|j: int| s.next <= j < s.pass.len() implies
        #[trigger] swap_removed(s.names, name).contains(s.pass[j]) by {
        assert(s.names.contains(s.pass[j]));
        assert(s.pass[j] != name);
    }
    match meta {
        None => {
            let s2 = SelectionView {
                names: inserted(swap_removed(s.names, name), name),
                targeted: merged_target(s.targeted, name, Set::empty(), properties),
                changed: s.changed || !s.targeted.contains_key(name),
                ..scanning
            };
            assert forall|j: int| s2.next <= j < s2.pass.len() implies s2.names.contains(#[trigger] s2.pass[j]) by {
                assert(swap_removed(s.names, name).contains(s.pass[j]));
            }
            lemma_scan_skips_excluded(opts, s2);
        },
        Some(m) => {
            if s.stage->Meta_targeted || browser_match(ua, m.browsers) {
                if feature.flags.contains("always"@) || !s.seen_removed.contains(name) {
                    let deps = match m.dependencies {
                        Some(d) => d,
                        None => Seq::empty(),
                    };
                    let n0 = inserted(swap_removed(s.names, name), name);
                    let t0 = merged_target(s.targeted, name, feature.flags, properties);
                    let c0 = s.changed || !s.targeted.contains_key(name);
                    lemma_add_features_keeps(n0, t0, c0, deps, feature.flags, properties);
                    lemma_add_features_no_dup(n0, t0, c0, deps, feature.flags, properties);
                    let r = add_features(n0, t0, c0, deps, feature.flags, properties);
                    let s2 = SelectionView {
                        names: r.0,
                        targeted: r.1,
                        changed: r.2,
                        seen_removed: s.seen_removed.insert(name),
                        ..scanning
                    };
                    assert forall|j: int| s2.next <= j < s2.pass.len() implies s2.names.contains(#[trigger] s2.pass[j]) by {
                        assert(swap_removed(s.names, name).contains(s.pass[j]));
                        assert(n0.contains(s.pass[j]));
                    }
                    lemma_scan_skips_excluded(opts, s2);
                } else {
                    lemma_scan_skips_excluded(opts, scanning);
                }
            } else if s.targeted.contains_key(name) && s.targeted[name].flags.contains("always"@) {
                lemma_scan_skips_excluded(opts, scanning);
            } else {
                let s2 = SelectionView {
                    names: swap_removed(s.names, name),
                    targeted: s.targeted.remove(name),
                    changed: s.changed || s.targeted.contains_key(name),
                    ..scanning
                };
                lemma_scan_skips_excluded(opts, s2);
            }
        },
    }
}

/// Once finished, a selection stays as it is whatever replies come.
pub proof fn lemma_finished_stays(opts: ParametersView, ua: U, s: SelectionView, reply: ReplyView)
    requires
        s.stage is Finished,
    ensures
        step(opts, ua, s, reply) == s,
{
}

/// Walking chooses nothing and adds no name: what is chosen, and what is to
/// be visited, after a walk was so before it.
pub proof fn lemma_scan_adds_nothing(opts: ParametersView, s: SelectionView)
    requires
        scan_ready(s),
    ensures
        forall|x: Seq<char>| #[trigger] scan(opts, s).targeted.contains_key(x) ==> s.targeted.contains_key(x),
        forall|x: Seq<char>| #[trigger] scan(opts, s).names.contains(x) ==> s.names.contains(x),
    decreases s.names.len() + (if s.changed { 1int } else { 0int }), s.pass.len() - s.next,
{
    if s.next < s.pass.len() {
        let name = s.pass[s.next];
        if opts.excludes.contains(name) {
            lemma_swap_removed(s.names, name);
            let s2 = SelectionView {
                names: swap_removed(s.names, name),
                targeted: s.targeted.remove(name),
                changed: s.changed || s.targeted.contains_key(name),
                next: s.next + 1,
                ..s
            };
            assert forall|j: int| s2.next <= j < s2.pass.len() implies s2.names.contains(#[trigger] s2.pass[j]) by {
                assert(s.names.contains(s.pass[j]));
                assert(s.pass[j] != name);
            }
            lemma_scan_adds_nothing(opts, s2);
        }
    } else if s.changed {
        let s2 = SelectionView { pass: s.names, next: 0, changed: false, ..s };
        assert forall|j: int| s2.next <= j < s2.pass.len() implies s2.names.contains(#[trigger] s2.pass[j]) by {}
        lemma_scan_adds_nothing(opts, s2);
    }
}

/// A configuration matches a browser only through a range that it gives
/// the browser's family, and only if the browser's version lies in it: a
/// configuration without browsers, or one that does not name the family,
/// matches no browser.
pub proof fn lemma_browser_match_needs_range(ua: U, browsers: Option<Map<Seq<char>, Seq<char>>>)
    ensures
        browser_match(ua, browsers) ==> browsers is Some,
        browser_match(ua, browsers) ==> browsers->0.contains_key(ua.parsed().family@),
        browser_match(ua, browsers) ==> version_in_range(
            ua.parsed().major,
            ua.parsed().minor,
            ua.parsed().patch,
            browsers->0[ua.parsed().family@],
        ),
{
}

/// A name not yet needed whose configuration gives the browser's family no
/// range that its version lies in is dropped once the configuration comes:
/// it is neither chosen nor still to be visited, unless it was chosen
/// before with the flag `always`.
pub proof fn lemma_unmatched_configuration_drops(opts: ParametersView, ua: U, s: SelectionView, m: ConfigView)
    requires
        settled(s),
        s.stage is Meta,
        !s.stage->Meta_targeted,
        !(m.browsers is Some && m.browsers->0.contains_key(ua.parsed().family@) && version_in_range(
            ua.parsed().major,
            ua.parsed().minor,
            ua.parsed().patch,
            m.browsers->0[ua.parsed().family@],
        )),
        !(s.targeted.contains_key(s.stage->Meta_name) && s.targeted[s.stage->Meta_name].flags.contains("always"@)),
    ensures
        !after_meta(opts, ua, s, Some(m)).targeted.contains_key(s.stage->Meta_name),
        !after_meta(opts, ua, s, Some(m)).names.contains(s.stage->Meta_name),
{
    let name = s.stage->Meta_name;
    assert(!browser_match(ua, m.browsers));
    lemma_swap_removed(s.names, name);
    lemma_swap_removed_no_dup(s.names, name);
    let s2 = SelectionView {
        names: swap_removed(s.names, name),
        targeted: s.targeted.remove(name),
        changed: s.changed || s.targeted.contains_key(name),
        stage: StageView::Scanning,
        ..s
    };
    assert forall|j: int| s2.next <= j < s2.pass.len() implies s2.names.contains(#[trigger] s2.pass[j]) by {
        assert(s.names.contains(s.pass[j]));
        assert(s.pass[j] != name);
    }
    assert(after_meta(opts, ua, s, Some(m)) == scan(opts, s2));
    lemma_scan_adds_nothing(opts, s2);
}

/// Before its configuration comes, a name without aliases is already
/// needed exactly when it is flagged `always` or gated; it is gated (the
/// only flag it can get here) exactly when it is not flagged `always`, the
/// browser is unknown and the request asks to polyfill unknown browsers.
/// So for a known browser, or a request that does not ask to polyfill
/// unknown ones, only `always` makes it needed, and nothing gates it.
pub proof fn lemma_needed_before_configuration(opts: ParametersView, ua: U, s: SelectionView)
    requires
        s.stage is Aliases,
    ensures
        after_aliases(opts, ua, s, Seq::empty()).stage is Meta,
        after_aliases(opts, ua, s, Seq::empty()).stage->Meta_name == s.stage->Aliases_name,
        after_aliases(opts, ua, s, Seq::empty()).stage->Meta_targeted <==> (
            s.stage->Aliases_feature.flags.contains("always"@)
            || (opts.unknown == "polyfill"@ && ua.parsed().unknown)),
        after_aliases(opts, ua, s, Seq::empty()).stage->Meta_properties.flags.contains("gated"@) <==> (
            !s.stage->Aliases_feature.flags.contains("always"@)
            && opts.unknown == "polyfill"@ && ua.parsed().unknown),
        after_aliases(opts, ua, s, Seq::empty()).stage->Meta_properties.flags.subset_of(
            Set::<Seq<char>>::empty().insert("gated"@),
        ),
        !ua.parsed().unknown || opts.unknown != "polyfill"@ ==> {
            &&& after_aliases(opts, ua, s, Seq::empty()).stage->Meta_targeted
                == s.stage->Aliases_feature.flags.contains("always"@)
            &&& after_aliases(opts, ua, s, Seq::empty()).stage->Meta_properties.flags
                == Set::<Seq<char>>::empty()
        },
{
}

/// For a known browser, or a request that does not ask to polyfill unknown
/// browsers, a name without aliases and not flagged `always`, whose
/// configuration gives the browser's family no range that its version lies
/// in, is not chosen once both of its lookups are answered (unless it was
/// chosen before with `always`).
pub proof fn lemma_unneeded_name_not_chosen(opts: ParametersView, ua: U, s: SelectionView, m: ConfigView)
    requires
        settled(s),
        s.stage is Aliases,
        !s.stage->Aliases_feature.flags.contains("always"@),
        !ua.parsed().unknown || opts.unknown != "polyfill"@,
        !(m.browsers is Some && m.browsers->0.contains_key(ua.parsed().family@) && version_in_range(
            ua.parsed().major,
            ua.parsed().minor,
            ua.parsed().patch,
            m.browsers->0[ua.parsed().family@],
        )),
        !(s.targeted.contains_key(s.stage->Aliases_name) && s.targeted[s.stage->Aliases_name].flags.contains("always"@)),
    ensures
        !step(opts, ua, step(opts, ua, s, ReplyView::Aliases(None)), ReplyView::Meta(Some(m))).targeted.contains_key(
            s.stage->Aliases_name,
        ),
{
    let s1 = step(opts, ua, s, ReplyView::Aliases(None));
    assert(s1 == after_aliases(opts, ua, s, Seq::empty()));
    lemma_needed_before_configuration(opts, ua, s);
    lemma_after_aliases_settles(opts, ua, s, Seq::empty());
    lemma_unmatched_configuration_drops(opts, ua, s1, m);
}

/// `x` will be walked past again: the current pass has it ahead, or has
/// changed something, so that another pass over the names follows.
pub open spec fn still_to_walk(s: SelectionView, x: Seq<char>) -> bool {
    s.changed || exists|j: int| s.next <= j < s.pass.len() && #[trigger] s.pass[j] == x
}

/// Every excluded name that is chosen is among the names to visit and
/// still to be walked past (where it is dropped).
pub open spec fn excluded_ahead(opts: ParametersView, s: SelectionView) -> bool {
    forall|x: Seq<char>|
        opts.excludes.contains(x) && #[trigger] s.targeted.contains_key(x) ==> s.names.contains(x) && still_to_walk(s, x)
}

/// `excluded_ahead`, and a finished selection has walked a whole pass that
/// changed nothing.
pub open spec fn exclusions_tracked(opts: ParametersView, s: SelectionView) -> bool {
    &&& excluded_ahead(opts, s)
    &&& (s.stage is Finished ==> s.next == s.pass.len() && !s.changed)
}

/// A finished selection, with its exclusions tracked, has chosen no
/// excluded name.
pub proof fn lemma_finished_chooses_no_excluded(opts: ParametersView, s: SelectionView)
    requires
        exclusions_tracked(opts, s),
        s.stage is Finished,
    ensures
        forall|x: Seq<char>| opts.excludes.contains(x) ==> !#[trigger] s.targeted.contains_key(x),
{
}

/// A walk drops every excluded name it passes from the chosen features: it
/// keeps the exclusions tracked.
pub proof fn lemma_scan_tracks(opts: ParametersView, s: SelectionView)
    requires
        scan_ready(s),
        excluded_ahead(opts, s),
    ensures
        exclusions_tracked(opts, scan(opts, s)),
    decreases s.names.len() + (if s.changed { 1int } else { 0int }), s.pass.len() - s.next,
{
    if s.next < s.pass.len() {
        let name = s.pass[s.next];
        if opts.excludes.contains(name) {
            lemma_swap_removed(s.names, name);
            let s2 = SelectionView {
                names: swap_removed(s.names, name),
                targeted: s.targeted.remove(name),
                changed: s.changed || s.targeted.contains_key(name),
                next: s.next + 1,
                ..s
            };
            assert forall|j: int| s2.next <= j < s2.pass.len() implies s2.names.contains(#[trigger] s2.pass[j]) by {
                assert(s.names.contains(s.pass[j]));
                assert(s.pass[j] != name);
            }
            assert forall|x: Seq<char>| opts.excludes.contains(x) && #[trigger] s2.targeted.contains_key(x) implies
                s2.names.contains(x) && still_to_walk(s2, x) by {
                assert(s.targeted.contains_key(x));
                assert(x != name);
                if !s.changed {
                    let j = choose|j: int| s.next <= j < s.pass.len() && #[trigger] s.pass[j] == x;
                    assert(j != s.next);
                    assert(s2.pass[j] == x);
                }
            }
            lemma_scan_tracks(opts, s2);
        } else {
            let r = scan(opts, s);
            assert forall|x: Seq<char>| opts.excludes.contains(x) && #[trigger] r.targeted.contains_key(x) implies
                r.names.contains(x) && still_to_walk(r, x) by {
                assert(s.targeted.contains_key(x));
                if !s.changed {
                    let j = choose|j: int| s.next <= j < s.pass.len() && #[trigger] s.pass[j] == x;
                    assert(j != s.next);
                    assert(r.pass[j] == x);
                }
            }
        }
    } else if s.changed {
        let s2 = SelectionView { pass: s.names, next: 0, changed: false, ..s };
        assert forall|j: int| s2.next <= j < s2.pass.len() implies s2.names.contains(#[trigger] s2.pass[j]) by {}
        assert forall|x: Seq<char>| opts.excludes.contains(x) && #[trigger] s2.targeted.contains_key(x) implies
            s2.names.contains(x) && still_to_walk(s2, x) by {
            let j = s.names.index_of(x);
            assert(s2.pass[j] == x);
        }
        lemma_scan_tracks(opts, s2);
    }
}

/// Names added anew are among the names afterwards, and the flag then says
/// that something changed; a flag set stays set.
pub proof fn lemma_add_features_new(
    names: Seq<Seq<char>>,
    targeted: Map<Seq<char>, FeaturePropertiesView>,
    changed: bool,
    list: Seq<Seq<char>>,
    flags: Set<Seq<char>>,
    props: FeaturePropertiesView,
)
    ensures
        forall|x: Seq<char>| #[trigger] add_features(names, targeted, changed, list, flags, props).1.contains_key(x) ==>
            targeted.contains_key(x) || (add_features(names, targeted, changed, list, flags, props).2
                && add_features(names, targeted, changed, list, flags, props).0.contains(x)),
        changed ==> add_features(names, targeted, changed, list, flags, props).2,
    decreases list.len(),
{
    if list.len() > 0 {
        lemma_add_features_new(names, targeted, changed, list.drop_last(), flags, props);
        let prev = add_features(names, targeted, changed, list.drop_last(), flags, props);
        lemma_inserted(prev.0, list.last());
    }
}

/// A state whose names and chosen features changed only around a name that
/// is not excluded keeps every excluded chosen name ahead.
proof fn lemma_ahead_carries(opts: ParametersView, s: SelectionView, s2: SelectionView, name: Seq<char>)
    requires
        excluded_ahead(opts, s),
        !opts.excludes.contains(name),
        s2.pass == s.pass,
        s2.next == s.next,
        s.changed ==> s2.changed,
        forall|x: Seq<char>| s.names.contains(x) && x != name ==> #[trigger] s2.names.contains(x),
        forall|x: Seq<char>| #[trigger] s2.targeted.contains_key(x) ==>
            x == name || s.targeted.contains_key(x) || (s2.changed && s2.names.contains(x)),
    ensures
        excluded_ahead(opts, s2),
{
    assert forall|x: Seq<char>| opts.excludes.contains(x) && #[trigger] s2.targeted.contains_key(x) implies
        s2.names.contains(x) && still_to_walk(s2, x) by {
        assert(x != name);
        if s.targeted.contains_key(x) {
            assert(s.names.contains(x));
            if !s.changed {
                let j = choose|j: int| s.next <= j < s.pass.len() && #[trigger] s.pass[j] == x;
                assert(s2.pass[j] == x);
            }
        }
    }
}

/// The exclusions stay tracked once the configuration of a name that is
/// not excluded comes.
proof fn lemma_after_meta_tracks(opts: ParametersView, ua: U, s: SelectionView, meta: Option<ConfigView>)
    requires
        settled(s),
        s.stage is Meta,
        !asks_excluded(opts, s),
        exclusions_tracked(opts, s),
    ensures
        exclusions_tracked(opts, after_meta(opts, ua, s, meta)),
{
    let name = s.stage->Meta_name;
    let feature = s.stage->Meta_feature;
    let properties = s.stage->Meta_properties;
    let scanning = SelectionView { stage: StageView::Scanning, ..s };
    lemma_swap_removed(s.names, name);
    lemma_inserted(swap_removed(s.names, name), name);
    lemma_inserted_no_dup(swap_removed(s.names, name), name);
    lemma_swap_removed_no_dup(s.names, name);
    assert forall|j: int| s.next <= j < s.pass.len() implies
        #[trigger] swap_removed(s.names, name).contains(s.pass[j]) by {
        assert(s.names.contains(s.pass[j]));
        assert(s.pass[j] != name);
    }
    assert(scan_ready(scanning));
    assert(excluded_ahead(opts, scanning));
    match meta {
        None => {
            let s2 = SelectionView {
                names: inserted(swap_removed(s.names, name), name),
                targeted: merged_target(s.targeted, name, Set::empty(), properties),
                changed: s.changed || !s.targeted.contains_key(name),
                ..scanning
            };
            assert forall|j: int| s2.next <= j < s2.pass.len() implies s2.names.contains(#[trigger] s2.pass[j]) by {
                assert(swap_removed(s.names, name).contains(s.pass[j]));
            }
            lemma_ahead_carries(opts, s, s2, name);
            lemma_scan_tracks(opts, s2);
        },
        Some(m) => {
            if s.stage->Meta_targeted || browser_match(ua, m.browsers) {
                if feature.flags.contains("always"@) || !s.seen_removed.contains(name) {
                    let deps = match m.dependencies {
                        Some(d) => d,
                        None => Seq::empty(),
                    };
                    let n0 = inserted(swap_removed(s.names, name), name);
                    let t0 = merged_target(s.targeted, name, feature.flags, properties);
                    let c0 = s.changed || !s.targeted.contains_key(name);
                    lemma_add_features_keeps(n0, t0, c0, deps, feature.flags, properties);
                    lemma_add_features_no_dup(n0, t0, c0, deps, feature.flags, properties);
                    lemma_add_features_new(n0, t0, c0, deps, feature.flags, properties);
                    let r = add_features(n0, t0, c0, deps, feature.flags, properties);
                    let s2 = SelectionView {
                        names: r.0,
                        targeted: r.1,
                        changed: r.2,
                        seen_removed: s.seen_removed.insert(name),
                        ..scanning
                    };
                    assert forall|j: int| s2.next <= j < s2.pass.len() implies s2.names.contains(#[trigger] s2.pass[j]) by {
                        assert(swap_removed(s.names, name).contains(s.pass[j]));
                        assert(n0.contains(s.pass[j]));
                    }
                    assert forall|x: Seq<char>| s.names.contains(x) && x != name implies #[trigger] s2.names.contains(x) by {
                        assert(swap_removed(s.names, name).contains(x));
                        assert(n0.contains(x));
                    }
                    lemma_ahead_carries(opts, s, s2, name);
                    lemma_scan_tracks(opts, s2);
                } else {
                    lemma_scan_tracks(opts, scanning);
                }
            } else if s.targeted.contains_key(name) && s.targeted[name].flags.contains("always"@) {
                lemma_scan_tracks(opts, scanning);
            } else {
                let s2 = SelectionView {
                    names: swap_removed(s.names, name),
                    targeted: s.targeted.remove(name),
                    changed: s.changed || s.targeted.contains_key(name),
                    ..scanning
                };
                lemma_ahead_carries(opts, s, s2, name);
                lemma_scan_tracks(opts, s2);
            }
        },
    }
}

/// Every reply keeps the exclusions tracked, from a settled state that does
/// not wait for an excluded name: an excluded name can be chosen only for a
/// while, as a dependency or alias, until the walk passes it again.
pub proof fn lemma_step_tracks(opts: ParametersView, ua: U, s: SelectionView, reply: ReplyView)
    requires
        settled(s),
        !asks_excluded(opts, s),
        exclusions_tracked(opts, s),
    ensures
        exclusions_tracked(opts, step(opts, ua, s, reply)),
{
    match (s.stage, reply) {
        (StageView::Aliases { name, feature }, ReplyView::Aliases(a)) => {
            let list = match a {
                Some(l) => l,
                None => Seq::empty(),
            };
            if list.len() > 0 {
                lemma_swap_removed(s.names, name);
                let n0 = swap_removed(s.names, name);
                lemma_add_features_keeps(n0, s.targeted, s.changed, list, feature.flags, no_properties());
                lemma_add_features_no_dup(n0, s.targeted, s.changed, list, feature.flags, no_properties());
                lemma_add_features_new(n0, s.targeted, s.changed, list, feature.flags, no_properties());
                let r = add_features(n0, s.targeted, s.changed, list, feature.flags, no_properties());
                let s2 = SelectionView { names: r.0, targeted: r.1, changed: r.2, stage: StageView::Scanning, ..s };
                assert forall|j: int| s2.next <= j < s2.pass.len() implies s2.names.contains(#[trigger] s2.pass[j]) by {
                    assert(s.names.contains(s.pass[j]));
                    assert(s.pass[j] != name);
                    assert(n0.contains(s.pass[j]));
                }
                assert forall|x: Seq<char>| s.names.contains(x) && x != name implies #[trigger] s2.names.contains(x) by {
                    assert(n0.contains(x));
                }
                lemma_ahead_carries(opts, s, s2, name);
                lemma_scan_tracks(opts, s2);
            } else {
                let r = after_aliases(opts, ua, s, list);
                assert forall|x: Seq<char>| opts.excludes.contains(x) && #[trigger] r.targeted.contains_key(x) implies
                    r.names.contains(x) && still_to_walk(r, x) by {
                    assert(s.targeted.contains_key(x));
                    if !s.changed {
                        let j = choose|j: int| s.next <= j < s.pass.len() && #[trigger] s.pass[j] == x;
                        assert(r.pass[j] == x);
                    }
                }
            }
        },
        (StageView::Meta { .. }, ReplyView::Meta(m)) => {
            lemma_after_meta_tracks(opts, ua, s, m);
        },
        _ => {},
    }
}

} // verus!
