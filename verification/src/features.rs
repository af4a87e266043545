//! The state that selection works on: the names still to look at, in order,
//! and the features chosen so far with their properties.
use vstd::prelude::*;
use indexmap::IndexSet;
use crate::flags::FlagSet;
use crate::text::opt_str;
use crate::strmap::StrMap;
use crate::names::{index_set_items, index_set_insert, index_set_swap_remove, inserted, swap_removed};
use crate::text::lemma_index_of_unique;

verus! {

/// What is known of a chosen feature: its flags (such as `always` or
/// `gated`) and a comment for the bundle's header.
pub struct FeatureProperties {
    pub flags: FlagSet,
    pub comment: Option<String>,
}

/// The mathematical value of `FeatureProperties`.
pub struct FeaturePropertiesView {
    pub flags: Set<Seq<char>>,
    pub comment: Option<Seq<char>>,
}

impl View for FeatureProperties {
    type V = FeaturePropertiesView;

    open spec fn view(&self) -> FeaturePropertiesView {
        FeaturePropertiesView { flags: self.flags@, comment: opt_str(self.comment) }
    }
}

/// `props` with the flags `flags` added.
pub open spec fn with_flags(props: FeaturePropertiesView, flags: Set<Seq<char>>) -> FeaturePropertiesView {
    FeaturePropertiesView { flags: props.flags.union(flags), comment: props.comment }
}

fn copy_comment(c: &Option<String>) -> (r: Option<String>)
    ensures
        opt_str(r) == opt_str(*c),
{
    match c {
        Some(s) => Some(s.clone()),
        None => None,
    }
}

impl FeatureProperties {
    /// No flags and no comment.
    pub fn empty() -> (p: FeatureProperties)
        ensures
            p@.flags == Set::<Seq<char>>::empty(),
            p@.comment is None,
    {
        FeatureProperties { flags: FlagSet::new(), comment: None }
    }

    /// A copy of the properties.
    pub fn duplicate(&self) -> (p: FeatureProperties)
        ensures
            p@ == self@,
    {
        let mut flags = FlagSet::new();
        flags.extend(&self.flags);
        assert(flags@ =~= self.flags@);
        FeatureProperties { flags, comment: copy_comment(&self.comment) }
    }
}

/// The chosen features, by name.
pub type TargetedFeatures = StrMap<FeatureProperties>;

/// The chosen features after `name` is added with `flags` and `props`: a
/// new name gets `props` with `flags` added; a chosen one keeps its comment
/// and gains those flags and the flags of `props`.
pub open spec fn merged_target(
    targeted: Map<Seq<char>, FeaturePropertiesView>,
    name: Seq<char>,
    flags: Set<Seq<char>>,
    props: FeaturePropertiesView,
) -> Map<Seq<char>, FeaturePropertiesView> {
    let incoming = with_flags(props, flags);
    if targeted.contains_key(name) {
        targeted.insert(name, with_flags(targeted[name], incoming.flags))
    } else {
        targeted.insert(name, incoming)
    }
}

/// Drops `feature_name` from the names to visit and from the chosen
/// features; returns whether it had been chosen.
pub fn remove_feature(
    feature_name: &String,
    feature_names: &mut IndexSet<String>,
    targeted_features: &mut TargetedFeatures,
) -> (was_chosen: bool)
    ensures
        index_set_items(*final(feature_names)) == swap_removed(index_set_items(*old(feature_names)), feature_name@),
        index_set_items(*final(feature_names)).no_duplicates(),
        final(targeted_features)@ == old(targeted_features)@.remove(feature_name@),
        was_chosen == old(targeted_features)@.contains_key(feature_name@),
{
    index_set_swap_remove(feature_names, feature_name);
    targeted_features.remove(feature_name)
}

/// Adds `feature_name` to the names to visit (at the end, if it is new) and
/// chooses it with `feature_flags` and `feature_properties` as
/// `merged_target` says; returns whether it had not been chosen before.
pub fn add_feature(
    feature_name: &String,
    feature_flags: &FlagSet,
    feature_properties: FeatureProperties,
    feature_names: &mut IndexSet<String>,
    targeted_features: &mut TargetedFeatures,
) -> (was_new: bool)
    ensures
        index_set_items(*final(feature_names)) == inserted(index_set_items(*old(feature_names)), feature_name@),
        index_set_items(*final(feature_names)).no_duplicates(),
        final(targeted_features)@ == merged_target(old(targeted_features)@, feature_name@, feature_flags@, feature_properties@),
        was_new == !old(targeted_features)@.contains_key(feature_name@),
{
    let mut properties = feature_properties;
    properties.flags.extend(feature_flags);
    index_set_insert(feature_names, feature_name.clone());
    let existing = match targeted_features.get(feature_name) {
        Some(f) => Some(f.duplicate()),
        None => None,
    };
    match existing {
        Some(f) => {
            let mut f = f;
            f.flags.extend(&properties.flags);
            targeted_features.insert(feature_name.clone(), f)
        },
        None => targeted_features.insert(feature_name.clone(), properties),
    }
}

/// Removing a feature undoes adding it, where it was new: the names and the
/// chosen features are as before.
pub proof fn lemma_remove_undoes_add(
    names: Seq<Seq<char>>,
    targeted: Map<Seq<char>, FeaturePropertiesView>,
    name: Seq<char>,
    flags: Set<Seq<char>>,
    props: FeaturePropertiesView,
)
    requires
        names.no_duplicates(),
        !names.contains(name),
        !targeted.contains_key(name),
    ensures
        swap_removed(inserted(names, name), name) == names,
        merged_target(targeted, name, flags, props).remove(name) == targeted,
{
    let s = names.push(name);
    assert forall|a: int, b: int| 0 <= a < s.len() && 0 <= b < s.len() && a != b implies s[a] != s[b] by {
        if a == names.len() {
            assert(s[b] == names[b]);
        } else if b == names.len() {
            assert(s[a] == names[a]);
        }
    }
    assert(s[names.len() as int] == name);
    lemma_index_of_unique(s, names.len() as int);
    assert(swap_removed(s, name) =~= names);
    assert(merged_target(targeted, name, flags, props).remove(name) =~= targeted);
}

} // verus!
