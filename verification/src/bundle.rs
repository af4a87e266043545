//! Lays out the bundle: a header comment that explains what it holds, then
//! the polyfills' sources in dependency order, wrapped in one closure.
use vstd::prelude::*;
use crate::features::{FeaturePropertiesView, TargetedFeatures};
use crate::params::{PolyfillParameters, ParametersView, PolyfillConfig, ConfigView};
use crate::selection::sorted_names;
use crate::text::{strs, opt_str, join, join_strings, sort_strings, str_order, lemma_sorted_sets_equal};
use vstd::relations::sorted_by;
use crate::toposort::{toposort, toposort_spec, pairs, ToposortError, respects, lemma_toposort_orders};

verus! {

/// The license of a polyfill: its own, or `CC0`.
pub open spec fn license_of(m: ConfigView) -> Seq<char> {
    match m.license {
        Some(l) => l,
        None => "CC0"@,
    }
}

/// The header line of a polyfill: its name and license, then the comment it
/// had, in brackets.
pub open spec fn feature_comment(name: Seq<char>, license: Seq<char>, old: Option<Seq<char>>) -> Seq<char> {
    match old {
        Some(c) => name + ", License: "@ + license + " ("@ + c + ")"@,
        None => name + ", License: "@ + license,
    }
}

/// The edges from each dependency of `name` that is chosen to `name`.
pub open spec fn dependency_edges(
    name: Seq<char>,
    deps: Seq<Seq<char>>,
    chosen: Set<Seq<char>>,
) -> Seq<(Seq<char>, Seq<char>)>
    decreases deps.len(),
{
    if deps.len() == 0 {
        Seq::empty()
    } else {
        let prev = dependency_edges(name, deps.drop_last(), chosen);
        if chosen.contains(deps.last()) {
            prev.push((deps.last(), name))
        } else {
            prev
        }
    }
}

/// What the configurations of the chosen polyfills give: the polyfills that
/// have one, the dependency edges between chosen polyfills, and the names
/// without one (not recognised).
pub struct OutlineView {
    pub nodes: Seq<Seq<char>>,
    pub edges: Seq<(Seq<char>, Seq<char>)>,
    pub warnings: Seq<Seq<char>>,
}

/// The outline of `metas` (each chosen name with its configuration).
pub open spec fn outline(metas: Seq<(Seq<char>, Option<ConfigView>)>, chosen: Set<Seq<char>>) -> OutlineView
    decreases metas.len(),
{
    if metas.len() == 0 {
        OutlineView { nodes: Seq::empty(), edges: Seq::empty(), warnings: Seq::empty() }
    } else {
        let prev = outline(metas.drop_last(), chosen);
        let (name, meta) = metas.last();
        match meta {
            Some(m) => OutlineView {
                nodes: prev.nodes.push(name),
                edges: prev.edges + dependency_edges(
                    name,
                    match m.dependencies {
                        Some(d) => d,
                        None => Seq::empty(),
                    },
                    chosen,
                ),
                warnings: prev.warnings,
            },
            None => OutlineView { warnings: prev.warnings.push(name), ..prev },
        }
    }
}

/// The chosen features once each with a configuration has its header line
/// as comment.
pub open spec fn described(
    targeted: Map<Seq<char>, FeaturePropertiesView>,
    metas: Seq<(Seq<char>, Option<ConfigView>)>,
) -> Map<Seq<char>, FeaturePropertiesView>
    decreases metas.len(),
{
    if metas.len() == 0 {
        targeted
    } else {
        let prev = described(targeted, metas.drop_last());
        let (name, meta) = metas.last();
        match meta {
            Some(m) => if prev.contains_key(name) {
                prev.insert(
                    name,
                    FeaturePropertiesView {
                        comment: Some(feature_comment(name, license_of(m), prev[name].comment)),
                        ..prev[name]
                    },
                )
            } else {
                prev
            },
            None => prev,
        }
    }
}

/// The view of the (name, configuration) pairs.
pub open spec fn metas_view(metas: Seq<(String, Option<PolyfillConfig>)>) -> Seq<(Seq<char>, Option<ConfigView>)> {
    metas.map_values(
        |e: (String, Option<PolyfillConfig>)|
            (
                e.0@,
                match e.1 {
                    Some(c) => Some(c@),
                    None => None,
                },
            ),
    )
}

/// The outline of the chosen polyfills, in executable form.
pub struct Outline {
    pub nodes: Vec<String>,
    pub edges: Vec<(String, String)>,
    pub warnings: Vec<String>,
}

fn comment_text(name: &String, license: &String, old: &Option<String>) -> (r: String)
    ensures
        r@ == feature_comment(name@, license@, opt_str(*old)),
{
    let mut r = name.clone();
    r.append(", License: ");
    r.append(license.as_str());
    match old {
        Some(c) => {
            r.append(" (");
            r.append(c.as_str());
            r.append(")");
        },
        None => {},
    }
    r
}

/// Reads the configurations of the chosen polyfills: collects the outline
/// and gives each polyfill with a configuration its header line.
pub fn describe_features(
    targeted: &mut TargetedFeatures,
    metas: &Vec<(String, Option<PolyfillConfig>)>,
) -> (o: Outline)
    ensures
        final(targeted)@ == described(old(targeted)@, metas_view(metas@)),
        (OutlineView { nodes: strs(o.nodes@), edges: pairs(o.edges@), warnings: strs(o.warnings@) })
            == outline(metas_view(metas@), old(targeted)@.dom()),
{
    let ghost t0 = targeted@;
    let ghost mv = metas_view(metas@);
    let mut nodes: Vec<String> = Vec::new();
    let mut edges: Vec<(String, String)> = Vec::new();
    let mut warnings: Vec<String> = Vec::new();
    let mut i: usize = 0;
    assert(strs(nodes@) =~= Seq::<Seq<char>>::empty());
    assert(strs(warnings@) =~= Seq::<Seq<char>>::empty());
    assert(pairs(edges@) =~= Seq::<(Seq<char>, Seq<char>)>::empty());
    assert(mv.take(0) =~= Seq::<(Seq<char>, Option<ConfigView>)>::empty());
    while i < metas.len()
        invariant
            i <= metas.len(),
            mv == metas_view(metas@),
            targeted@ == described(t0, mv.take(i as int)),
            targeted@.dom() == t0.dom(),
            (OutlineView { nodes: strs(nodes@), edges: pairs(edges@), warnings: strs(warnings@) })
                == outline(mv.take(i as int), t0.dom()),
        decreases metas.len() - i,
    {
        let ghost before_t = targeted@;
        let ghost before_edges = pairs(edges@);
        let ghost before_nodes = strs(nodes@);
        let ghost before_warnings = strs(warnings@);
        let name = &metas[i].0;
        assert(mv.take(i + 1).drop_last() =~= mv.take(i as int));
        assert(mv.take(i + 1).last() == mv[i as int]);
        match &metas[i].1 {
            Some(m) => {
                nodes.push(name.clone());
                assert(strs(nodes@) =~= before_nodes.push(name@));
                match &m.dependencies {
                    Some(deps) => {
                        let mut k: usize = 0;
                        while k < deps.len()
                            invariant
                                k <= deps.len(),
                                targeted@.dom() == t0.dom(),
                                pairs(edges@) == before_edges + dependency_edges(name@, strs(deps@).take(k as int), t0.dom()),
                            decreases deps.len() - k,
                        {
                            let ghost e0 = pairs(edges@);
                            assert(strs(deps@).take(k + 1).drop_last() =~= strs(deps@).take(k as int));
                            assert(strs(deps@).take(k + 1).last() == deps@[k as int]@);
                            if targeted.contains_key(&deps[k]) {
                                edges.push((deps[k].clone(), name.clone()));
                                assert(pairs(edges@) =~= e0.push((deps@[k as int]@, name@)));
                            }
                            k = k + 1;
                        }
                        assert(strs(deps@).take(deps.len() as int) =~= strs(deps@));
                    },
                    None => {
                        assert(dependency_edges(name@, Seq::empty(), t0.dom()) =~= Seq::empty());
                        assert(pairs(edges@) =~= before_edges + dependency_edges(name@, Seq::empty(), t0.dom()));
                    },
                }
                let license = match &m.license {
                    Some(l) => l.clone(),
                    None => String::from_str("CC0"),
                };
                let existing = match targeted.get(name) {
                    Some(f) => Some(f.duplicate()),
                    None => None,
                };
                match existing {
                    Some(f) => {
                        let mut f2 = f;
                        let c = comment_text(name, &license, &f2.comment);
                        f2.comment = Some(c);
                        targeted.insert(name.clone(), f2);
                    },
                    None => {},
                }
            },
            None => {
                warnings.push(name.clone());
                assert(strs(warnings@) =~= before_warnings.push(name@));
            },
        }
        i = i + 1;
    }
    assert(mv.take(metas.len() as int) =~= mv);
    Outline { nodes, edges, warnings }
}

/// The second line of the header.
pub open spec fn credits_line() -> Seq<char> {
    "For detailed credits and licence information see https://github.com/JakeChampion/polyfill-service."@
}

/// The second line of a minified bundle's header.
pub open spec fn minified_line() -> Seq<char> {
    "Disable minification (remove `.min` from URL path) for more info"@
}

/// The line above the names not recognised.
pub open spec fn unrecognised_line() -> Seq<char> {
    "These features were not recognised:"@
}

/// `- ` before a string.
pub open spec fn bullet(s: Seq<char>) -> Seq<char> {
    "- "@ + s
}

/// The header lines for the polyfills in order: each chosen one's comment.
pub open spec fn comment_lines(targeted: Map<Seq<char>, FeaturePropertiesView>, sorted: Seq<Seq<char>>) -> Seq<Seq<char>>
    decreases sorted.len(),
{
    if sorted.len() == 0 {
        Seq::empty()
    } else {
        let prev = comment_lines(targeted, sorted.drop_last());
        let n = sorted.last();
        if targeted.contains_key(n) {
            prev.push(bullet(targeted[n].comment->0))
        } else {
            prev
        }
    }
}

/// The header lines for the names not recognised.
pub open spec fn warning_lines(warnings: Seq<Seq<char>>) -> Seq<Seq<char>> {
    if warnings.len() > 0 {
        seq![
            Seq::empty(),
            unrecognised_line(),
            join(warnings.map_values(|w: Seq<char>| bullet(w)).sort_by(str_order()), ","@),
        ]
    } else {
        Seq::empty()
    }
}

/// The header lists every name not recognised: without such names it has
/// no lines for them; otherwise a blank line, the line that announces
/// them, and one line that joins with commas the bullets of all of them,
/// each as often as it occurs, in order.
pub proof fn lemma_warning_lines_list_all(warnings: Seq<Seq<char>>)
    ensures
        warnings.len() == 0 ==> warning_lines(warnings) == Seq::<Seq<char>>::empty(),
        warnings.len() > 0 ==> {
            &&& warning_lines(warnings).len() == 3
            &&& warning_lines(warnings)[0] == Seq::<char>::empty()
            &&& warning_lines(warnings)[1] == unrecognised_line()
            &&& exists|q: Seq<Seq<char>>| {
                &&& q.len() == warnings.len()
                &&& q.to_multiset() == warnings.map_values(|w: Seq<char>| bullet(w)).to_multiset()
                &&& sorted_by(q, str_order())
                &&& #[trigger] join(q, ","@) == warning_lines(warnings)[2]
            }
        },
{
    broadcast use vstd::seq_lib::to_multiset_len;
    if warnings.len() > 0 {
        let b = warnings.map_values(|w: Seq<char>| bullet(w));
        crate::text::lemma_str_order_total();
        b.lemma_sort_by_ensures(str_order());
        let q = b.sort_by(str_order());
        assert(q.len() == b.to_multiset().len());
        assert(join(q, ","@) == warning_lines(warnings)[2]);
    }
}

/// The lines of the header comment.
pub open spec fn explainer_lines(
    opts: ParametersView,
    version: Seq<char>,
    targeted: Map<Seq<char>, FeaturePropertiesView>,
    sorted: Seq<Seq<char>>,
    warnings: Seq<Seq<char>>,
) -> Seq<Seq<char>> {
    let head = "Polyfill service v"@ + version;
    if !opts.minify {
        seq![
            head,
            credits_line(),
            Seq::empty(),
            "Features requested: "@ + join(sorted_names(opts), ","@),
            Seq::empty(),
        ] + comment_lines(targeted, sorted) + warning_lines(warnings)
    } else {
        seq![head, minified_line()]
    }
}

/// The header comment.
pub open spec fn header_text(lines: Seq<Seq<char>>) -> Seq<char> {
    "/* "@ + join(lines, "\n * "@) + " */\n\n"@
}

/// A part of the bundle.
pub enum PieceView {
    /// Text as it is.
    Text(Seq<char>),
    /// The source of a polyfill in a format.
    Source { name: Seq<char>, format: Seq<char> },
    /// The source of a gated polyfill: it runs only where its detection
    /// says it is missing (see `gated_pieces`).
    Gated { name: Seq<char>, format: Seq<char> },
}

/// The line ending of the bundle: none when minified.
pub open spec fn line_end(minify: bool) -> Seq<char> {
    if minify { Seq::empty() } else { "\n"@ }
}

/// The format of the sources: `min` when minified, else `raw`.
pub open spec fn source_format(minify: bool) -> Seq<char> {
    if minify { "min"@ } else { "raw"@ }
}

/// The statement that calls the closure with the global object.
pub open spec fn invocation() -> Seq<char> {
    "('object' === typeof window && window || 'object' === typeof self && self || 'object' === typeof global && global || {});"@
}

/// The note of a bundle with no polyfills.
pub open spec fn nothing_needed() -> Seq<char> {
    "\n/* No polyfills needed for current settings and browser */\n\n"@
}

/// The sources of the polyfills in order, gated where flagged `gated`.
pub open spec fn source_pieces(
    targeted: Map<Seq<char>, FeaturePropertiesView>,
    sorted: Seq<Seq<char>>,
    format: Seq<char>,
) -> Seq<PieceView> {
    sorted.map_values(
        |n: Seq<char>|
            if targeted[n].flags.contains("gated"@) {
                PieceView::Gated { name: n, format }
            } else {
                PieceView::Source { name: n, format }
            },
    )
}

/// The call of the callback, if there is one.
pub open spec fn callback_pieces(callback: Option<Seq<char>>) -> Seq<PieceView> {
    match callback {
        Some(c) => seq![PieceView::Text("\ntypeof "@ + c + "==='function' && "@ + c + "();"@)],
        None => Seq::empty(),
    }
}

/// The bundle after its header.
pub open spec fn body_pieces(
    opts: ParametersView,
    targeted: Map<Seq<char>, FeaturePropertiesView>,
    sorted: Seq<Seq<char>>,
) -> Seq<PieceView> {
    let lf = line_end(opts.minify);
    let main = if sorted.len() > 0 {
        seq![PieceView::Text("(function(self, undefined) {"@ + lf)]
            + source_pieces(targeted, sorted, source_format(opts.minify))
            + seq![PieceView::Text("})"@ + lf + invocation() + lf)]
    } else if !opts.minify {
        seq![PieceView::Text(nothing_needed())]
    } else {
        Seq::empty()
    };
    main + callback_pieces(opts.callback)
}

/// The whole bundle.
pub open spec fn bundle_spec(
    opts: ParametersView,
    version: Seq<char>,
    targeted: Map<Seq<char>, FeaturePropertiesView>,
    sorted: Seq<Seq<char>>,
    warnings: Seq<Seq<char>>,
) -> Seq<PieceView> {
    seq![PieceView::Text(header_text(explainer_lines(opts, version, targeted, sorted, warnings)))]
        + body_pieces(opts, targeted, sorted)
}

/// A gated polyfill's source: wrapped in a check of its detection, where
/// its configuration has a detection that is not empty.
pub open spec fn gated_pieces(
    meta: Option<ConfigView>,
    name: Seq<char>,
    format: Seq<char>,
    minify: bool,
) -> Seq<PieceView> {
    let lf = line_end(minify);
    let source = PieceView::Source { name, format };
    match meta {
        Some(m) => match m.detect_source {
            Some(d) => if d.len() > 0 {
                seq![
                    PieceView::Text("if (!("@ + d + ")) {"@ + lf),
                    source,
                    PieceView::Text(lf + "}"@ + lf + lf),
                ]
            } else {
                seq![source]
            },
            None => seq![source],
        },
        None => seq![source],
    }
}

/// A part of the bundle (see `PieceView`).
#[derive(Debug)]
pub enum Piece {
    Text(String),
    Source { name: String, format: String },
    Gated { name: String, format: String },
}

impl View for Piece {
    type V = PieceView;

    open spec fn view(&self) -> PieceView {
        match self {
            Piece::Text(t) => PieceView::Text(t@),
            Piece::Source { name, format } => PieceView::Source { name: name@, format: format@ },
            Piece::Gated { name, format } => PieceView::Gated { name: name@, format: format@ },
        }
    }
}

/// The views of pieces.
pub open spec fn pieces_view(p: Seq<Piece>) -> Seq<PieceView> {
    p.map_values(|x: Piece| x@)
}

fn text(s: &str) -> (r: String)
    ensures
        r@ == s@,
{
    String::from_str(s)
}

/// The requested names, sorted, joined with commas.
fn requested_line(options: &PolyfillParameters) -> (r: String)
    ensures
        r@ == "Features requested: "@ + join(sorted_names(options@), ","@),
{
    broadcast use vstd::seq_lib::group_to_multiset_ensures;
    let keys = options.features.names();
    let sorted = sort_strings(keys);
    proof {
        let k = strs(keys@);
        let s = strs(sorted@);
        crate::text::lemma_str_order_total();
        k.lemma_sort_by_ensures(str_order());
        k.lemma_multiset_has_no_duplicates();
        assert forall|a: Seq<char>| s.to_multiset().contains(a) implies s.to_multiset().count(a) == 1 by {
            assert(k.to_multiset().contains(a));
        }
        s.lemma_multiset_has_no_duplicates_conv();
        assert forall|a: Seq<char>| s.contains(a) <==> k.contains(a) by {
            assert(s.contains(a) <==> s.to_multiset().count(a) > 0);
            assert(k.contains(a) <==> k.to_multiset().count(a) > 0);
        }
        assert(s.to_set() =~= options@.features.dom());
        let c = sorted_names(options@);
        assert(c.no_duplicates() && c.to_set() == options@.features.dom() && sorted_by(c, str_order()));
        lemma_sorted_sets_equal(c, s);
    }
    let mut r = text("Features requested: ");
    let joined = join_strings(&sorted, ",");
    r.append(joined.as_str());
    r
}

/// The header lines for the polyfills in order.
fn comment_lines_of(targeted: &TargetedFeatures, sorted: &Vec<String>) -> (r: Vec<String>)
    requires
        forall|i: int| 0 <= i < sorted@.len() && #[trigger] targeted@.contains_key(sorted@[i]@)
            ==> targeted@[sorted@[i]@].comment is Some,
    ensures
        strs(r@) == comment_lines(targeted@, strs(sorted@)),
{
    let mut r: Vec<String> = Vec::new();
    let mut i: usize = 0;
    while i < sorted.len()
        invariant
            i <= sorted.len(),
            forall|j: int| 0 <= j < sorted@.len() && #[trigger] targeted@.contains_key(sorted@[j]@)
                ==> targeted@[sorted@[j]@].comment is Some,
            strs(r@) == comment_lines(targeted@, strs(sorted@).take(i as int)),
        decreases sorted.len() - i,
    {
        let ghost r0 = strs(r@);
        assert(strs(sorted@).take(i + 1).drop_last() =~= strs(sorted@).take(i as int));
        assert(strs(sorted@).take(i + 1).last() == sorted@[i as int]@);
        match targeted.get(&sorted[i]) {
            Some(f) => {
                match &f.comment {
                    Some(c) => {
                        let mut line = text("- ");
                        line.append(c.as_str());
                        r.push(line);
                        assert(strs(r@) =~= r0.push(bullet(targeted@[sorted@[i as int]@].comment->0)));
                    },
                    None => {
                        assert(false);
                    },
                }
            },
            None => {},
        }
        i = i + 1;
    }
    assert(strs(sorted@).take(sorted.len() as int) =~= strs(sorted@));
    r
}

/// The header lines for the names not recognised.
fn warning_lines_of(warnings: &Vec<String>) -> (r: Vec<String>)
    ensures
        strs(r@) == warning_lines(strs(warnings@)),
{
    let mut r: Vec<String> = Vec::new();
    if warnings.len() > 0 {
        let mut prefixed: Vec<String> = Vec::new();
        let mut i: usize = 0;
        while i < warnings.len()
            invariant
                i <= warnings.len(),
                strs(prefixed@) == strs(warnings@).take(i as int).map_values(|w: Seq<char>| bullet(w)),
            decreases warnings.len() - i,
        {
            let mut line = text("- ");
            line.append(warnings[i].as_str());
            let ghost p0 = strs(prefixed@);
            assert(line@ == bullet(warnings@[i as int]@));
            prefixed.push(line);
            assert(strs(prefixed@) =~= p0.push(bullet(warnings@[i as int]@)));
            assert(strs(warnings@).take(i + 1) =~= strs(warnings@).take(i as int).push(warnings@[i as int]@));
            assert(strs(prefixed@) =~= strs(warnings@).take(i + 1).map_values(|w: Seq<char>| bullet(w)));
            i = i + 1;
        }
        assert(strs(warnings@).take(warnings.len() as int) =~= strs(warnings@));
        let sorted = sort_strings(prefixed);
        r.push(String::new());
        r.push(text("These features were not recognised:"));
        r.push(join_strings(&sorted, ","));
        assert(strs(r@) =~= warning_lines(strs(warnings@)));
    } else {
        assert(strs(r@) =~= warning_lines(strs(warnings@)));
    }
    r
}

/// The lines of the header comment (see `explainer_lines`).
pub fn explainer(
    options: &PolyfillParameters,
    app_version: &String,
    targeted: &TargetedFeatures,
    sorted: &Vec<String>,
    warnings: &Vec<String>,
) -> (r: Vec<String>)
    requires
        forall|i: int| 0 <= i < sorted@.len() && #[trigger] targeted@.contains_key(sorted@[i]@)
            ==> targeted@[sorted@[i]@].comment is Some,
    ensures
        strs(r@) == explainer_lines(options@, app_version@, targeted@, strs(sorted@), strs(warnings@)),
{
    let mut head = text("Polyfill service v");
    head.append(app_version.as_str());
    let mut r: Vec<String> = Vec::new();
    if !options.minify {
        r.push(head);
        r.push(text("For detailed credits and licence information see https://github.com/JakeChampion/polyfill-service."));
        r.push(String::new());
        r.push(requested_line(options));
        r.push(String::new());
        let ghost base = strs(r@);
        let comments = comment_lines_of(targeted, sorted);
        let warns = warning_lines_of(warnings);
        let mut k: usize = 0;
        while k < comments.len()
            invariant
                k <= comments.len(),
                strs(r@) == base + strs(comments@).take(k as int),
            decreases comments.len() - k,
        {
            let ghost r0 = strs(r@);
            let line = comments[k].clone();
            r.push(line);
            assert(strs(r@) =~= r0.push(comments@[k as int]@));
            assert(strs(comments@).take(k + 1) =~= strs(comments@).take(k as int).push(comments@[k as int]@));
            assert(strs(r@) =~= base + strs(comments@).take(k + 1));
            k = k + 1;
        }
        assert(strs(comments@).take(comments.len() as int) =~= strs(comments@));
        let ghost mid = strs(r@);
        let mut k: usize = 0;
        while k < warns.len()
            invariant
                k <= warns.len(),
                strs(r@) == mid + strs(warns@).take(k as int),
            decreases warns.len() - k,
        {
            let ghost r0 = strs(r@);
            let line = warns[k].clone();
            r.push(line);
            assert(strs(r@) =~= r0.push(warns@[k as int]@));
            assert(strs(warns@).take(k + 1) =~= strs(warns@).take(k as int).push(warns@[k as int]@));
            assert(strs(r@) =~= mid + strs(warns@).take(k + 1));
            k = k + 1;
        }
        assert(strs(warns@).take(warns.len() as int) =~= strs(warns@));
        assert(strs(r@) =~= explainer_lines(options@, app_version@, targeted@, strs(sorted@), strs(warnings@)));
    } else {
        r.push(head);
        r.push(text("Disable minification (remove `.min` from URL path) for more info"));
        assert(strs(r@) =~= explainer_lines(options@, app_version@, targeted@, strs(sorted@), strs(warnings@)));
    }
    r
}

/// The header comment made of `lines`.
pub fn header(lines: &Vec<String>) -> (r: String)
    ensures
        r@ == header_text(strs(lines@)),
{
    let mut r = text("/* ");
    let joined = join_strings(lines, "\n * ");
    r.append(joined.as_str());
    r.append(" */\n\n");
    r
}

/// The bundle after its header (see `body_pieces`).
pub fn body(options: &PolyfillParameters, targeted: &TargetedFeatures, sorted: &Vec<String>) -> (r: Vec<Piece>)
    requires
        forall|i: int| 0 <= i < sorted@.len() ==> #[trigger] targeted@.contains_key(sorted@[i]@),
    ensures
        pieces_view(r@) == body_pieces(options@, targeted@, strs(sorted@)),
{
    let lf = if options.minify { String::new() } else { text("\n") };
    let mut r: Vec<Piece> = Vec::new();
    if sorted.len() > 0 {
        let mut opening = text("(function(self, undefined) {");
        opening.append(lf.as_str());
        r.push(Piece::Text(opening));
        let format = if options.minify { text("min") } else { text("raw") };
        let gated_flag = text("gated");
        let ghost start = pieces_view(r@);
        let mut i: usize = 0;
        while i < sorted.len()
            invariant
                i <= sorted.len(),
                forall|j: int| 0 <= j < sorted@.len() ==> #[trigger] targeted@.contains_key(sorted@[j]@),
                gated_flag@ == "gated"@,
                format@ == source_format(options@.minify),
                pieces_view(r@) == start + source_pieces(targeted@, strs(sorted@).take(i as int), format@),
            decreases sorted.len() - i,
        {
            let ghost r0 = pieces_view(r@);
            let gated = match targeted.get(&sorted[i]) {
                Some(f) => f.flags.contains(&gated_flag),
                None => false,
            };
            assert(targeted@.contains_key(sorted@[i as int]@));
            let piece = if gated {
                Piece::Gated { name: sorted[i].clone(), format: format.clone() }
            } else {
                Piece::Source { name: sorted[i].clone(), format: format.clone() }
            };
            r.push(piece);
            assert(pieces_view(r@) =~= r0.push(piece@));
            assert(strs(sorted@).take(i + 1) =~= strs(sorted@).take(i as int).push(sorted@[i as int]@));
            assert(source_pieces(targeted@, strs(sorted@).take(i + 1), format@)
                =~= source_pieces(targeted@, strs(sorted@).take(i as int), format@).push(piece@));
            i = i + 1;
        }
        assert(strs(sorted@).take(sorted.len() as int) =~= strs(sorted@));
        let mut closing = text("})");
        closing.append(lf.as_str());
        closing.append("('object' === typeof window && window || 'object' === typeof self && self || 'object' === typeof global && global || {});");
        closing.append(lf.as_str());
        let ghost r1 = pieces_view(r@);
        r.push(Piece::Text(closing));
        assert(pieces_view(r@) =~= r1.push(PieceView::Text(closing@)));
    } else if !options.minify {
        r.push(Piece::Text(text("\n/* No polyfills needed for current settings and browser */\n\n")));
    }
    let ghost main = pieces_view(r@);
    match &options.callback {
        Some(cb) => {
            let mut call = text("\ntypeof ");
            call.append(cb.as_str());
            call.append("==='function' && ");
            call.append(cb.as_str());
            call.append("();");
            r.push(Piece::Text(call));
            assert(pieces_view(r@) =~= main + callback_pieces(options@.callback));
        },
        None => {
            assert(pieces_view(r@) =~= main + callback_pieces(options@.callback));
        },
    }
    assert(pieces_view(r@) =~= body_pieces(options@, targeted@, strs(sorted@)));
    r
}

/// A gated polyfill's source, once its configuration is read again (see
/// `gated_pieces`).
pub fn gated(meta: &Option<PolyfillConfig>, name: &String, format: &String, minify: bool) -> (r: Vec<Piece>)
    ensures
        pieces_view(r@) == gated_pieces(
            match meta {
                Some(m) => Some(m@),
                None => None,
            },
            name@,
            format@,
            minify,
        ),
{
    let lf = if minify { String::new() } else { text("\n") };
    let mut r: Vec<Piece> = Vec::new();
    let source = Piece::Source { name: name.clone(), format: format.clone() };
    match meta {
        Some(m) => match &m.detect_source {
            Some(d) => {
                if !d.as_str().is_empty() {
                    let mut open = text("if (!(");
                    open.append(d.as_str());
                    open.append(")) {");
                    open.append(lf.as_str());
                    let mut close = lf.clone();
                    close.append("}");
                    close.append(lf.as_str());
                    close.append(lf.as_str());
                    r.push(Piece::Text(open));
                    r.push(source);
                    r.push(Piece::Text(close));
                } else {
                    r.push(source);
                }
            },
            None => {
                r.push(source);
            },
        },
        None => {
            r.push(source);
        },
    }
    assert(pieces_view(r@) =~= gated_pieces(
        match meta {
            Some(m) => Some(m@),
            None => None,
        },
        name@,
        format@,
        minify,
    ));
    r
}

/// Describing keeps the chosen names.
pub proof fn lemma_described_dom(targeted: Map<Seq<char>, FeaturePropertiesView>, metas: Seq<(Seq<char>, Option<ConfigView>)>)
    ensures
        described(targeted, metas).dom() == targeted.dom(),
    decreases metas.len(),
{
    if metas.len() > 0 {
        lemma_described_dom(targeted, metas.drop_last());
        let prev = described(targeted, metas.drop_last());
        let (name, meta) = metas.last();
        if meta is Some && prev.contains_key(name) {
            assert(prev.insert(name, prev[name]).dom() =~= prev.dom());
            assert(described(targeted, metas).dom() =~= prev.dom());
        }
    }
}

/// Every chosen polyfill with a configuration gets a comment, and every
/// polyfill of the outline is one of the given names.
pub proof fn lemma_outline_described(
    targeted: Map<Seq<char>, FeaturePropertiesView>,
    metas: Seq<(Seq<char>, Option<ConfigView>)>,
    chosen: Set<Seq<char>>,
)
    ensures
        forall|k: int| 0 <= k < outline(metas, chosen).nodes.len() ==>
            exists|i: int| 0 <= i < metas.len() && metas[i].0 == #[trigger] outline(metas, chosen).nodes[k],
        forall|n: Seq<char>| outline(metas, chosen).nodes.contains(n) && targeted.contains_key(n)
            ==> (#[trigger] described(targeted, metas)[n]).comment is Some,
    decreases metas.len(),
{
    if metas.len() > 0 {
        let init = metas.drop_last();
        lemma_outline_described(targeted, init, chosen);
        lemma_described_dom(targeted, init);
        let prev = outline(init, chosen);
        let dprev = described(targeted, init);
        let (name, meta) = metas.last();
        let o = outline(metas, chosen);
        assert forall|k: int| 0 <= k < o.nodes.len() implies
            exists|i: int| 0 <= i < metas.len() && metas[i].0 == #[trigger] o.nodes[k] by {
            if k < prev.nodes.len() {
                assert(o.nodes[k] == prev.nodes[k]);
                let i = choose|i: int| 0 <= i < init.len() && init[i].0 == prev.nodes[k];
                assert(metas[i] == init[i]);
            } else {
                assert(o.nodes[k] == name);
                assert(metas[metas.len() - 1].0 == name);
            }
        }
        assert forall|n: Seq<char>| o.nodes.contains(n) && targeted.contains_key(n)
            implies (#[trigger] described(targeted, metas)[n]).comment is Some by {
            if n == name && meta is Some {
            } else {
                if meta is Some {
                    let k = choose|k: int| 0 <= k < o.nodes.len() && o.nodes[k] == n;
                    assert(k < prev.nodes.len());
                    assert(prev.nodes[k] == n);
                } else {
                    assert(prev.nodes.contains(n));
                }
                assert(prev.nodes.contains(n));
            }
        }
    }
}

/// The bundle, or why its polyfills could not be ordered.
pub open spec fn layout_spec(
    opts: ParametersView,
    version: Seq<char>,
    targeted: Map<Seq<char>, FeaturePropertiesView>,
    metas: Seq<(Seq<char>, Option<ConfigView>)>,
) -> Result<Seq<PieceView>, ToposortError> {
    let o = outline(metas, targeted.dom());
    match toposort_spec(o.nodes.sort_by(str_order()), o.edges) {
        Ok(sorted) => Ok(bundle_spec(opts, version, described(targeted, metas), sorted, o.warnings)),
        Err(e) => Err(e),
    }
}

/// The view of a layout.
pub open spec fn layout_view(r: Result<Vec<Piece>, ToposortError>) -> Result<Seq<PieceView>, ToposortError> {
    match r {
        Ok(p) => Ok(pieces_view(p@)),
        Err(e) => Err(e),
    }
}

/// Lays out the bundle of the chosen polyfills, given the configuration of
/// each (`metas` names each chosen polyfill with its configuration): the
/// header, then the sources ordered by dependency (see `layout_spec`).
pub fn layout_bundle(
    options: &PolyfillParameters,
    app_version: &String,
    targeted: TargetedFeatures,
    metas: &Vec<(String, Option<PolyfillConfig>)>,
) -> (r: Result<Vec<Piece>, ToposortError>)
    requires
        forall|i: int| 0 <= i < metas@.len() ==> targeted@.contains_key(#[trigger] metas@[i].0@),
    ensures
        layout_view(r) == layout_spec(options@, app_version@, targeted@, metas_view(metas@)),
{
    let ghost t0 = targeted@;
    let ghost mv = metas_view(metas@);
    let mut targeted = targeted;
    let outline_ = describe_features(&mut targeted, metas);
    let nodes = sort_strings(outline_.nodes);
    let sorted = match toposort(&nodes, &outline_.edges) {
        Ok(s) => s,
        Err(e) => {
            return Err(e);
        },
    };
    proof {
        let o = outline(mv, t0.dom());
        lemma_outline_described(t0, mv, t0.dom());
        lemma_described_dom(t0, mv);
        crate::text::lemma_str_order_total();
        o.nodes.lemma_sort_by_ensures(str_order());
        let sn = o.nodes.sort_by(str_order());
        assert forall|k: int| 0 <= k < sn.len() implies o.nodes.contains(#[trigger] sn[k]) by {
            assert(sn.contains(sn[k]));
        }
        crate::toposort::lemma_greedy_within(sn, pairs(outline_.edges@), Seq::empty());
        assert forall|i: int| 0 <= i < sorted@.len() implies
            #[trigger] targeted@.contains_key(sorted@[i]@) && targeted@[sorted@[i]@].comment is Some by {
            let n = strs(sorted@)[i];
            assert(sn.contains(n));
            assert(o.nodes.contains(n));
            let k = choose|k: int| 0 <= k < o.nodes.len() && o.nodes[k] == n;
            let j = choose|j: int| 0 <= j < mv.len() && mv[j].0 == o.nodes[k];
            assert(metas@[j].0@ == n);
            assert(t0.contains_key(n));
        }
    }
    let lines = explainer(options, app_version, &targeted, &sorted, &outline_.warnings);
    let mut pieces: Vec<Piece> = Vec::new();
    pieces.push(Piece::Text(header(&lines)));
    let rest = body(options, &targeted, &sorted);
    let ghost p0 = pieces_view(pieces@);
    let mut i: usize = 0;
    while i < rest.len()
        invariant
            i <= rest.len(),
            pieces_view(pieces@) == p0 + pieces_view(rest@).take(i as int),
        decreases rest.len() - i,
    {
        let ghost q = pieces_view(pieces@);
        let piece = match &rest[i] {
            Piece::Text(t) => Piece::Text(t.clone()),
            Piece::Source { name, format } => Piece::Source { name: name.clone(), format: format.clone() },
            Piece::Gated { name, format } => Piece::Gated { name: name.clone(), format: format.clone() },
        };
        assert(piece@ == rest@[i as int]@);
        pieces.push(piece);
        assert(pieces_view(pieces@) =~= q.push(rest@[i as int]@));
        assert(pieces_view(rest@).take(i + 1) =~= pieces_view(rest@).take(i as int).push(rest@[i as int]@));
        i = i + 1;
    }
    assert(pieces_view(rest@).take(rest.len() as int) =~= pieces_view(rest@));
    proof {
        let o = outline(mv, t0.dom());
        assert(strs(nodes@) == o.nodes.sort_by(str_order()));
        assert(pairs(outline_.edges@) == o.edges);
        assert(toposort_spec(o.nodes.sort_by(str_order()), o.edges) == Ok::<Seq<Seq<char>>, ToposortError>(strs(sorted@)));
        assert(targeted@ == described(t0, mv));
        assert(p0 =~= seq![PieceView::Text(header_text(explainer_lines(options@, app_version@, described(t0, mv), strs(sorted@), o.warnings)))]);
        assert(pieces_view(pieces@) =~= bundle_spec(options@, app_version@, described(t0, mv), strs(sorted@), o.warnings));
    }
    Ok(pieces)
}

/// The polyfills whose sources the pieces serve, in order.
pub open spec fn served(p: Seq<PieceView>) -> Seq<Seq<char>>
    decreases p.len(),
{
    if p.len() == 0 {
        Seq::empty()
    } else {
        let prev = served(p.drop_last());
        match p.last() {
            PieceView::Text(_) => prev,
            PieceView::Source { name, .. } => prev.push(name),
            PieceView::Gated { name, .. } => prev.push(name),
        }
    }
}

proof fn lemma_served_concat(a: Seq<PieceView>, b: Seq<PieceView>)
    ensures
        served(a + b) == served(a) + served(b),
    decreases b.len(),
{
    if b.len() == 0 {
        assert(a + b =~= a);
        assert(served(a) + served(b) =~= served(a));
    } else {
        lemma_served_concat(a, b.drop_last());
        assert((a + b).drop_last() =~= a + b.drop_last());
        assert((a + b).last() == b.last());
        match b.last() {
            PieceView::Text(_) => {},
            PieceView::Source { name, .. } => {
                assert(served(a) + served(b) =~= (served(a) + served(b.drop_last())).push(name));
            },
            PieceView::Gated { name, .. } => {
                assert(served(a) + served(b) =~= (served(a) + served(b.drop_last())).push(name));
            },
        }
    }
}

proof fn lemma_served_sources(
    targeted: Map<Seq<char>, FeaturePropertiesView>,
    sorted: Seq<Seq<char>>,
    format: Seq<char>,
)
    ensures
        served(source_pieces(targeted, sorted, format)) == sorted,
    decreases sorted.len(),
{
    if sorted.len() > 0 {
        lemma_served_sources(targeted, sorted.drop_last(), format);
        assert(source_pieces(targeted, sorted, format).drop_last() =~= source_pieces(targeted, sorted.drop_last(), format));
        assert(sorted.drop_last().push(sorted.last()) =~= sorted);
    } else {
        assert(source_pieces(targeted, sorted, format) =~= Seq::<PieceView>::empty());
    }
}

proof fn lemma_served_texts(p: Seq<PieceView>)
    requires
        forall|i: int| 0 <= i < p.len() ==> #[trigger] p[i] is Text,
    ensures
        served(p) == Seq::<Seq<char>>::empty(),
    decreases p.len(),
{
    if p.len() > 0 {
        lemma_served_texts(p.drop_last());
        assert(p[p.len() - 1] is Text);
    }
}

proof fn lemma_outline_nodes_distinct(metas: Seq<(Seq<char>, Option<ConfigView>)>, chosen: Set<Seq<char>>)
    requires
        metas.map_values(|m: (Seq<char>, Option<ConfigView>)| m.0).no_duplicates(),
    ensures
        outline(metas, chosen).nodes.no_duplicates(),
    decreases metas.len(),
{
    if metas.len() > 0 {
        let init = metas.drop_last();
        let names = metas.map_values(|m: (Seq<char>, Option<ConfigView>)| m.0);
        assert(init.map_values(|m: (Seq<char>, Option<ConfigView>)| m.0) =~= names.drop_last());
        lemma_outline_nodes_distinct(init, chosen);
        lemma_outline_described(Map::empty(), init, chosen);
        let prev = outline(init, chosen).nodes;
        let name = metas.last().0;
        if metas.last().1 is Some {
            let nodes = prev.push(name);
            assert forall|a: int, b: int| 0 <= a < nodes.len() && 0 <= b < nodes.len() && a != b implies nodes[a] != nodes[b] by {
                if a == prev.len() || b == prev.len() {
                    let k = if a == prev.len() { b } else { a };
                    assert(nodes[k] == prev[k]);
                    let i = choose|i: int| 0 <= i < init.len() && init[i].0 == #[trigger] prev[k];
                    assert(names[i] == init[i].0);
                    assert(names[metas.len() - 1] == name);
                }
            }
        }
    }
}

/// The bundle serves every polyfill that has a configuration, each once,
/// and each after the polyfills it depends on.
pub proof fn lemma_bundle_serves_in_dependency_order(
    opts: ParametersView,
    version: Seq<char>,
    targeted: Map<Seq<char>, FeaturePropertiesView>,
    metas: Seq<(Seq<char>, Option<ConfigView>)>,
    pieces: Seq<PieceView>,
)
    requires
        metas.map_values(|m: (Seq<char>, Option<ConfigView>)| m.0).no_duplicates(),
        layout_spec(opts, version, targeted, metas) == Ok::<Seq<PieceView>, ToposortError>(pieces),
    ensures
        served(pieces).no_duplicates(),
        served(pieces).to_set() == outline(metas, targeted.dom()).nodes.to_set(),
        respects(served(pieces), outline(metas, targeted.dom()).edges),
{
    broadcast use vstd::seq_lib::group_to_multiset_ensures;
    let o = outline(metas, targeted.dom());
    crate::text::lemma_str_order_total();
    o.nodes.lemma_sort_by_ensures(str_order());
    let sn = o.nodes.sort_by(str_order());
    lemma_outline_nodes_distinct(metas, targeted.dom());
    o.nodes.lemma_multiset_has_no_duplicates();
    assert forall|a: Seq<char>| sn.to_multiset().contains(a) implies sn.to_multiset().count(a) == 1 by {
        assert(o.nodes.to_multiset().contains(a));
    }
    sn.lemma_multiset_has_no_duplicates_conv();
    assert forall|a: Seq<char>| sn.contains(a) <==> o.nodes.contains(a) by {
        assert(sn.contains(a) <==> sn.to_multiset().count(a) > 0);
        assert(o.nodes.contains(a) <==> o.nodes.to_multiset().count(a) > 0);
    }
    assert(sn.to_set() =~= o.nodes.to_set());
    let sorted = toposort_spec(sn, o.edges)->Ok_0;
    lemma_toposort_orders(sn, o.edges, sorted);
    let t = described(targeted, metas);
    let lf = line_end(opts.minify);
    let head = seq![PieceView::Text(header_text(explainer_lines(opts, version, t, sorted, o.warnings)))];
    let cb = callback_pieces(opts.callback);
    lemma_served_texts(head);
    lemma_served_texts(cb);
    let main = if sorted.len() > 0 {
        let open = seq![PieceView::Text("(function(self, undefined) {"@ + lf)];
        let close = seq![PieceView::Text("})"@ + lf + invocation() + lf)];
        let srcs = source_pieces(t, sorted, source_format(opts.minify));
        lemma_served_texts(open);
        lemma_served_texts(close);
        lemma_served_sources(t, sorted, source_format(opts.minify));
        lemma_served_concat(open, srcs);
        lemma_served_concat(open + srcs, close);
        assert(served(open + srcs + close) =~= sorted);
        open + srcs + close
    } else if !opts.minify {
        let m = seq![PieceView::Text(nothing_needed())];
        lemma_served_texts(m);
        assert(sorted =~= Seq::<Seq<char>>::empty());
        m
    } else {
        assert(sorted =~= Seq::<Seq<char>>::empty());
        lemma_served_texts(Seq::<PieceView>::empty());
        Seq::empty()
    };
    assert(body_pieces(opts, t, sorted) == main + cb);
    lemma_served_concat(main, cb);
    lemma_served_concat(head, main + cb);
    assert(pieces == head + (main + cb));
    assert(served(pieces) =~= sorted);
}

} // verus!
