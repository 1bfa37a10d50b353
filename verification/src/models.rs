//! The model catalog: the built-in models, what the user defines in layers
//! over them, and what a local server offers.
//!
//! A later layer replaces a model by its id and keeps its place, so that
//! the first model of every provider stays its default. What is discovered
//! ranks below everything that someone wrote down.
use std::sync::Arc;

use vstd::prelude::*;

use crate::settings::FileRead;
use crate::text::concat2;
use crate::{paths, settings, text};

verus! {

/// What a model can be shown.
#[derive(Debug, Clone, Copy, PartialEq, Eq, Structural)]
pub enum InputModality {
    Text,
    Image,
}

/// Prices above a prompt size.
#[derive(Debug, Clone, Copy, PartialEq, Eq, Structural)]
pub struct CostTier {
    pub context_over: u64,
    pub input: i64,
    pub output: i64,
    pub cached_read: i64,
    pub cached_write: i64,
}

/// Prices, in millionths of a dollar for a million tokens.
#[derive(Debug)]
pub struct ModelCost {
    pub input: i64,
    pub output: i64,
    pub cached_read: i64,
    pub cached_write: i64,
    pub tiers: Option<Vec<CostTier>>,
}

/// A setting for a provider's quirks. Anything but a switch or a text is
/// JSON text.
#[derive(Debug)]
pub enum CompatValue {
    Flag(bool),
    Text(String),
    Other(String),
}

/// What there is to know of a model. The levels of thinking map to what the
/// provider calls them, or to nothing where they cannot be had.
#[derive(Debug)]
pub struct Model {
    pub id: String,
    pub name: String,
    pub api: String,
    pub provider: String,
    pub base_url: String,
    pub reasoning: bool,
    pub thinking_level_map: Option<Vec<(String, Option<String>)>>,
    pub input: Vec<InputModality>,
    pub cost: ModelCost,
    pub context_window: u64,
    pub max_tokens: u64,
    pub headers: Option<Vec<(String, String)>>,
    pub compat: Option<Vec<(String, CompatValue)>>,
}

/// The first model from `from` on with this id.
pub open spec fn model_index(v: Seq<Arc<Model>>, id: Seq<char>, from: int) -> Option<int>
    decreases v.len() - from,
{
    if from >= v.len() {
        None
    } else if v[from].id@ == id {
        Some(from)
    } else {
        model_index(v, id, from + 1)
    }
}

/// Finds the first model with this id.
pub fn find_model(v: &Vec<Arc<Model>>, id: &str) -> (r: Option<usize>)
    ensures
        match r {
            Some(i) => i < v@.len() && model_index(v@, id@, 0) == Some(i as int),
            None => model_index(v@, id@, 0) is None,
        },
{
    let mut i: usize = 0;
    while i < v.len()
        invariant
            i <= v@.len(),
            model_index(v@, id@, 0) == model_index(v@, id@, i as int),
        decreases v@.len() - i,
    {
        if text::same_str(v[i].id.as_str(), id) {
            return Some(i);
        }
        i += 1;
    }
    None
}

/// A catalog with one more model: it takes the place of the one with its
/// id, or the end.
pub open spec fn with_model(v: Seq<Arc<Model>>, m: Arc<Model>) -> Seq<Arc<Model>> {
    match model_index(v, m.id@, 0) {
        Some(i) => v.update(i, m),
        None => v.push(m),
    }
}

/// A catalog with the first `n` models of a layer over it.
pub open spec fn with_layer(v: Seq<Arc<Model>>, layer: Seq<Arc<Model>>, n: int) -> Seq<Arc<Model>>
    decreases n,
{
    if n <= 0 {
        v
    } else {
        with_model(with_layer(v, layer, n - 1), layer[n - 1])
    }
}

/// The first `n` layers, one over the other.
pub open spec fn merged(layers: Seq<Vec<Arc<Model>>>, n: int) -> Seq<Arc<Model>>
    decreases n,
{
    if n <= 0 {
        Seq::empty()
    } else {
        with_layer(merged(layers, n - 1), layers[n - 1]@, layers[n - 1]@.len() as int)
    }
}

/// Merges the layers of a catalog, the later over the earlier.
pub fn merge_models(layers: &Vec<Vec<Arc<Model>>>) -> (r: Vec<Arc<Model>>)
    ensures
        r@ == merged(layers@, layers@.len() as int),
{
    let mut out: Vec<Arc<Model>> = Vec::new();
    let mut i: usize = 0;
    while i < layers.len()
        invariant
            i <= layers@.len(),
            out@ == merged(layers@, i as int),
        decreases layers@.len() - i,
    {
        let layer = &layers[i];
        let ghost base = out@;
        let mut k: usize = 0;
        while k < layer.len()
            invariant
                k <= layer@.len(),
                out@ == with_layer(base, layer@, k as int),
            decreases layer@.len() - k,
        {
            let m = Arc::clone(&layer[k]);
            match find_model(&out, m.id.as_str()) {
                Some(at) => out.set(at, m),
                None => out.push(m),
            }
            k += 1;
        }
        i += 1;
    }
    out
}

/// Whether no two models share an id.
pub open spec fn distinct_ids(v: Seq<Arc<Model>>) -> bool {
    forall|i: int, j: int|
        0 <= i < v.len() && 0 <= j < v.len() && (#[trigger] v[i]).id@ == (
        #[trigger] v[j]).id@ ==> i == j
}

proof fn lemma_model_index(v: Seq<Arc<Model>>, id: Seq<char>, from: int)
    requires
        0 <= from,
    ensures
        match model_index(v, id, from) {
            Some(i) => from <= i < v.len() && v[i].id@ == id,
            None => forall|k: int| from <= k < v.len() ==> (#[trigger] v[k]).id@ != id,
        },
    decreases v.len() - from,
{
    if from < v.len() && v[from].id@ != id {
        lemma_model_index(v, id, from + 1);
    }
}

proof fn lemma_with_model(v: Seq<Arc<Model>>, m: Arc<Model>)
    requires
        distinct_ids(v),
    ensures
        distinct_ids(with_model(v, m)),
        v.len() <= with_model(v, m).len(),
        forall|k: int| 0 <= k < v.len() ==> (#[trigger] with_model(v, m)[k]).id@ == v[k].id@,
        exists|k: int| 0 <= k < with_model(v, m).len() && #[trigger] with_model(v, m)[k] == m,
{
    lemma_model_index(v, m.id@, 0);
    let w = with_model(v, m);
    match model_index(v, m.id@, 0) {
        Some(i) => {
            assert(w[i] == m);
            assert forall|a: int, b: int|
                0 <= a < w.len() && 0 <= b < w.len() && (#[trigger] w[a]).id@ == (
                #[trigger] w[b]).id@ implies a == b by {
                assert(w[a].id@ == v[a].id@);
                assert(w[b].id@ == v[b].id@);
                let x = v[a];
                let y = v[b];
            }
        },
        None => {
            assert(w[v.len() as int] == m);
            assert forall|a: int, b: int|
                0 <= a < w.len() && 0 <= b < w.len() && (#[trigger] w[a]).id@ == (
                #[trigger] w[b]).id@ implies a == b by {
                if a < v.len() {
                    let x = v[a];
                }
                if b < v.len() {
                    let y = v[b];
                }
            }
        },
    }
}

proof fn lemma_with_layer(v: Seq<Arc<Model>>, layer: Seq<Arc<Model>>, n: int)
    requires
        distinct_ids(v),
        0 <= n <= layer.len(),
    ensures
        distinct_ids(with_layer(v, layer, n)),
        v.len() <= with_layer(v, layer, n).len(),
        forall|k: int| 0 <= k < v.len() ==> (#[trigger] with_layer(v, layer, n)[k]).id@ == v[k].id@,
    decreases n,
{
    if n > 0 {
        lemma_with_layer(v, layer, n - 1);
        lemma_with_model(with_layer(v, layer, n - 1), layer[n - 1]);
        let mid = with_layer(v, layer, n - 1);
        let w = with_layer(v, layer, n);
        assert forall|k: int| 0 <= k < v.len() implies (#[trigger] w[k]).id@ == v[k].id@ by {
            assert(mid[k].id@ == v[k].id@);
            assert(with_model(mid, layer[n - 1])[k].id@ == mid[k].id@);
        }
    }
}

/// A merged catalog holds every id once, and a layer never moves what is
/// there already: places, and with them the defaults of the providers, are
/// kept.
pub proof fn law_merging_keeps_places(layers: Seq<Vec<Arc<Model>>>, n: int)
    requires
        0 <= n < layers.len(),
    ensures
        distinct_ids(merged(layers, n)),
        distinct_ids(merged(layers, n + 1)),
        merged(layers, n).len() <= merged(layers, n + 1).len(),
        forall|k: int|
            0 <= k < merged(layers, n).len() ==> (#[trigger] merged(layers, n + 1)[k]).id@
                == merged(layers, n)[k].id@,
    decreases n,
{
    if n > 0 {
        law_merging_keeps_places(layers, n - 1);
    }
    lemma_with_layer(merged(layers, n), layers[n]@, layers[n]@.len() as int);
}

/// Whether no model of a layer between `k` and `n` has the id of model `k`.
pub open spec fn last_of_its_id(layer: Seq<Arc<Model>>, k: int, n: int) -> bool {
    forall|j: int| k < j < n ==> (#[trigger] layer[j]).id@ != layer[k].id@
}

proof fn lemma_layer_wins(v: Seq<Arc<Model>>, layer: Seq<Arc<Model>>, k: int, n: int)
    requires
        distinct_ids(v),
        0 <= k < n <= layer.len(),
        last_of_its_id(layer, k, n),
    ensures
        with_layer(v, layer, n).contains(layer[k]),
    decreases n,
{
    lemma_with_layer(v, layer, n - 1);
    let before = with_layer(v, layer, n - 1);
    let m = layer[n - 1];
    lemma_with_model(before, m);
    if k < n - 1 {
        lemma_layer_wins(v, layer, k, n - 1);
        let at = choose|i: int| 0 <= i < before.len() && before[i] == layer[k];
        lemma_model_index(before, m.id@, 0);
        assert(layer[n - 1].id@ != layer[k].id@);
        assert(with_model(before, m)[at] == layer[k]);
    }
}

/// A later layer wins: of every id that the last layer holds, the merged
/// catalog has the last layer's model, the last one if there are several,
/// and looking the id up finds it.
pub proof fn law_the_last_layer_wins(layers: Seq<Vec<Arc<Model>>>, k: int)
    requires
        layers.len() > 0,
        0 <= k < layers.last()@.len(),
        last_of_its_id(layers.last()@, k, layers.last()@.len() as int),
    ensures
        ({
            let all = merged(layers, layers.len() as int);
            let m = layers.last()@[k];
            model_index(all, m.id@, 0) matches Some(i) && 0 <= i < all.len() && all[i] == m
        }),
{
    let n = layers.len() as int;
    let layer = layers[n - 1]@;
    if n > 1 {
        law_merging_keeps_places(layers, n - 2);
    }
    law_merging_keeps_places(layers, n - 1);
    lemma_layer_wins(merged(layers, n - 1), layer, k, layer.len() as int);
    let all = merged(layers, n);
    let at = choose|i: int| 0 <= i < all.len() && all[i] == layer[k];
    lemma_model_index(all, layer[k].id@, 0);
    assert(all[at].id@ == layer[k].id@);
}

/// All models of the first `n` layers, one after the other.
pub open spec fn all_models(layers: Seq<Vec<Arc<Model>>>, n: int) -> Seq<Arc<Model>>
    decreases n,
{
    if n <= 0 {
        Seq::empty()
    } else {
        all_models(layers, n - 1) + layers[n - 1]@
    }
}

/// The ids of the first `n` models in the order in which they first occur,
/// each once.
pub open spec fn first_ids(all: Seq<Arc<Model>>, n: int) -> Seq<Seq<char>>
    decreases n,
{
    if n <= 0 {
        Seq::empty()
    } else {
        let before = first_ids(all, n - 1);
        if before.contains(all[n - 1].id@) {
            before
        } else {
            before.push(all[n - 1].id@)
        }
    }
}

/// The last of the first `n` models that has an id.
pub open spec fn last_model(all: Seq<Arc<Model>>, id: Seq<char>, n: int) -> Option<Arc<Model>>
    decreases n,
{
    if n <= 0 {
        None
    } else if all[n - 1].id@ == id {
        Some(all[n - 1])
    } else {
        last_model(all, id, n - 1)
    }
}

/// The ids of models.
pub open spec fn ids_of(v: Seq<Arc<Model>>) -> Seq<Seq<char>> {
    v.map_values(|m: Arc<Model>| m.id@)
}

/// The first model with an id.
pub open spec fn model_with(v: Seq<Arc<Model>>, id: Seq<char>) -> Option<Arc<Model>> {
    match model_index(v, id, 0) {
        Some(i) => Some(v[i]),
        None => None,
    }
}

proof fn lemma_one_more(v: Seq<Arc<Model>>, m: Arc<Model>, id: Seq<char>)
    requires
        distinct_ids(v),
    ensures
        distinct_ids(with_model(v, m)),
        ids_of(with_model(v, m)) == (if ids_of(v).contains(m.id@) {
            ids_of(v)
        } else {
            ids_of(v).push(m.id@)
        }),
        model_with(with_model(v, m), id) == (if m.id@ == id {
            Some(m)
        } else {
            model_with(v, id)
        }),
{
    let w = with_model(v, m);
    lemma_with_model(v, m);
    lemma_model_index(v, m.id@, 0);
    lemma_model_index(v, id, 0);
    lemma_model_index(w, id, 0);
    match model_index(v, m.id@, 0) {
        Some(i) => {
            assert(ids_of(v)[i] == m.id@);
            assert(ids_of(w) =~= ids_of(v));
            assert(w[i] == m);
        },
        None => {
            if ids_of(v).contains(m.id@) {
                let k = choose|k: int| 0 <= k < v.len() && ids_of(v)[k] == m.id@;
                assert(v[k].id@ == m.id@);
            }
            assert(ids_of(w) =~= ids_of(v).push(m.id@));
            assert(w[v.len() as int] == m);
        },
    }
    match model_index(w, id, 0) {
        Some(j) => {
            if m.id@ == id {
                let at = choose|at: int| 0 <= at < w.len() && w[at] == m;
                assert(w[at].id@ == w[j].id@);
            } else {
                assert(w[j] != m);
                assert(j < v.len() && v[j] == w[j]);
                assert(model_index(v, id, 0) is Some);
                let k = model_index(v, id, 0).unwrap();
                assert(v[k].id@ == v[j].id@);
            }
        },
        None => {
            if m.id@ == id {
                let at = choose|at: int| 0 <= at < w.len() && w[at] == m;
                assert(w[at].id@ == id);
            } else if let Some(k) = model_index(v, id, 0) {
                assert(w[k].id@ == v[k].id@);
            }
        },
    }
}

proof fn lemma_layer_laws(
    v: Seq<Arc<Model>>,
    all: Seq<Arc<Model>>,
    base: int,
    layer: Seq<Arc<Model>>,
    n: int,
    id: Seq<char>,
)
    requires
        0 <= n <= layer.len(),
        0 <= base,
        base + layer.len() <= all.len(),
        forall|k: int| 0 <= k < layer.len() ==> all[base + k] == layer[k],
        distinct_ids(v),
        ids_of(v) == first_ids(all, base),
        model_with(v, id) == last_model(all, id, base),
    ensures
        distinct_ids(with_layer(v, layer, n)),
        ids_of(with_layer(v, layer, n)) == first_ids(all, base + n),
        model_with(with_layer(v, layer, n), id) == last_model(all, id, base + n),
    decreases n,
{
    if n > 0 {
        lemma_layer_laws(v, all, base, layer, n - 1, id);
        lemma_one_more(with_layer(v, layer, n - 1), layer[n - 1], id);
        assert(all[base + n - 1] == layer[n - 1]);
    }
}

proof fn lemma_same_start(a: Seq<Arc<Model>>, b: Seq<Arc<Model>>, id: Seq<char>, n: int)
    requires
        n <= a.len() <= b.len(),
        forall|k: int| 0 <= k < n ==> a[k] == b[k],
    ensures
        first_ids(a, n) == first_ids(b, n),
        last_model(a, id, n) == last_model(b, id, n),
    decreases n,
{
    if n > 0 {
        lemma_same_start(a, b, id, n - 1);
    }
}

/// What merging comes to, over all layers: every id has one place, the one
/// where it first occurs, and under it stands the last model that has it.
pub proof fn law_merging_is_first_place_and_last_word(
    layers: Seq<Vec<Arc<Model>>>,
    n: int,
    id: Seq<char>,
)
    requires
        0 <= n <= layers.len(),
    ensures
        ({
            let all = all_models(layers, n);
            &&& distinct_ids(merged(layers, n))
            &&& ids_of(merged(layers, n)) == first_ids(all, all.len() as int)
            &&& model_with(merged(layers, n), id) == last_model(all, id, all.len() as int)
        }),
    decreases n,
{
    if n > 0 {
        law_merging_is_first_place_and_last_word(layers, n - 1, id);
        let before = all_models(layers, n - 1);
        let all = all_models(layers, n);
        let layer = layers[n - 1]@;
        let base = before.len() as int;
        lemma_same_start(before, all, id, base);
        lemma_layer_laws(merged(layers, n - 1), all, base, layer, layer.len() as int, id);
    } else {
        assert(ids_of(merged(layers, n)) =~= Seq::empty());
    }
}

/// A catalog with the first `n` discovered models whose ids nobody defined.
pub open spec fn with_discovered(v: Seq<Arc<Model>>, found: Seq<Arc<Model>>, n: int) -> Seq<
    Arc<Model>,
>
    decreases n,
{
    if n <= 0 {
        v
    } else {
        let before = with_discovered(v, found, n - 1);
        match model_index(before, found[n - 1].id@, 0) {
            Some(_) => before,
            None => before.push(found[n - 1]),
        }
    }
}

/// Adds discovered models whose ids nobody defined.
pub fn add_discovered(v: Vec<Arc<Model>>, found: &Vec<Arc<Model>>) -> (r: Vec<Arc<Model>>)
    ensures
        r@ == with_discovered(v@, found@, found@.len() as int),
{
    let mut out = v;
    let ghost base = v@;
    let mut k: usize = 0;
    while k < found.len()
        invariant
            k <= found@.len(),
            out@ == with_discovered(base, found@, k as int),
        decreases found@.len() - k,
    {
        if find_model(&out, found[k].id.as_str()).is_none() {
            out.push(Arc::clone(&found[k]));
        }
        k += 1;
    }
    out
}

/// What is discovered never replaces what someone wrote down.
pub proof fn law_discovery_only_adds(v: Seq<Arc<Model>>, found: Seq<Arc<Model>>, n: int)
    requires
        0 <= n <= found.len(),
    ensures
        v.len() <= with_discovered(v, found, n).len(),
        with_discovered(v, found, n).take(v.len() as int) == v,
    decreases n,
{
    if n > 0 {
        law_discovery_only_adds(v, found, n - 1);
        let before = with_discovered(v, found, n - 1);
        assert(with_discovered(v, found, n).take(v.len() as int) =~= before.take(v.len() as int));
    } else {
        assert(v.take(v.len() as int) =~= v);
    }
}

/// Whether texts hold a text.
pub open spec fn has_text(v: Seq<String>, s: Seq<char>) -> bool {
    exists|k: int| 0 <= k < v.len() && (#[trigger] v[k])@ == s
}

/// Whether texts hold a text.
pub fn contains_text(v: &Vec<String>, s: &str) -> (r: bool)
    ensures
        r == has_text(v@, s@),
{
    let mut k: usize = 0;
    while k < v.len()
        invariant
            k <= v@.len(),
            forall|j: int| 0 <= j < k ==> (#[trigger] v@[j])@ != s@,
        decreases v@.len() - k,
    {
        if text::same_str(v[k].as_str(), s) {
            return true;
        }
        k += 1;
    }
    false
}

/// The models of a catalog that some provider can serve.
pub open spec fn servable(v: Seq<Arc<Model>>, apis: Seq<String>) -> Seq<Arc<Model>> {
    v.filter(|m: Arc<Model>| has_text(apis, m.api@))
}

/// The models of a catalog that no provider can serve.
pub open spec fn unservable(v: Seq<Arc<Model>>, apis: Seq<String>) -> Seq<Arc<Model>> {
    v.filter(|m: Arc<Model>| !has_text(apis, m.api@))
}

/// Parts a catalog into the models whose protocol is served and those that
/// have to be skipped.
pub fn filter_registered(v: &Vec<Arc<Model>>, apis: &Vec<String>) -> (r: (
    Vec<Arc<Model>>,
    Vec<Arc<Model>>,
))
    ensures
        r.0@ == servable(v@, apis@),
        r.1@ == unservable(v@, apis@),
{
    let mut kept: Vec<Arc<Model>> = Vec::new();
    let mut skipped: Vec<Arc<Model>> = Vec::new();
    let mut i: usize = 0;
    while i < v.len()
        invariant
            i <= v@.len(),
            kept@ == servable(v@.take(i as int), apis@),
            skipped@ == unservable(v@.take(i as int), apis@),
        decreases v@.len() - i,
    {
        proof {
            reveal(Seq::filter);
            assert(v@.take(i + 1).drop_last() =~= v@.take(i as int));
        }
        if contains_text(apis, v[i].api.as_str()) {
            kept.push(Arc::clone(&v[i]));
        } else {
            skipped.push(Arc::clone(&v[i]));
        }
        i += 1;
    }
    assert(v@.take(v@.len() as int) =~= v@);
    (kept, skipped)
}

/// The catalog of a session: the layers, what was discovered, and of that
/// what can be served.
pub fn build_catalog(
    layers: &Vec<Vec<Arc<Model>>>,
    discovered: &Vec<Arc<Model>>,
    apis: &Vec<String>,
) -> (r: (Vec<Arc<Model>>, Vec<Arc<Model>>))
    ensures
        ({
            let all = with_discovered(
                merged(layers@, layers@.len() as int),
                discovered@,
                discovered@.len() as int,
            );
            r.0@ == servable(all, apis@) && r.1@ == unservable(all, apis@)
        }),
{
    let all = add_discovered(merge_models(layers), discovered);
    filter_registered(&all, apis)
}

/// Where models are defined by hand: by the user, then by the project.
pub open spec fn model_files(home: Option<Seq<char>>, cwd: Seq<char>) -> Seq<Seq<char>> {
    match home {
        Some(h) => seq![
            paths::joined(h, "models.json"@),
            paths::joined(cwd, ".cupel/models.json"@),
        ],
        None => seq![paths::joined(cwd, ".cupel/models.json"@)],
    }
}

/// Lists where models are defined by hand.
pub fn models_paths(home: Option<&str>, cwd: &str) -> (r: Vec<String>)
    ensures
        text::texts(r@) == model_files(
            match home {
                Some(h) => Some(h@),
                None => None,
            },
            cwd@,
        ),
{
    let mut out: Vec<String> = Vec::new();
    if let Some(h) = home {
        out.push(paths::join(h, "models.json"));
    }
    out.push(paths::join(cwd, ".cupel/models.json"));
    assert(text::texts(out@) =~= model_files(
        match home {
            Some(h) => Some(h@),
            None => None,
        },
        cwd@,
    ));
    out
}

/// Takes the models out of a file that was read. A missing one holds none;
/// one that was written by hand and has something wrong deserves an error.
pub fn load_models_file(path: &str, read: FileRead<Vec<Arc<Model>>>) -> (r: Result<
    Vec<Arc<Model>>,
    String,
>)
    ensures
        match (settings::file_problem(path@, read), r) {
            (None, Ok(v)) => v@ == match read {
                FileRead::Parsed(m) => m@,
                _ => Seq::empty(),
            },
            (Some(e), Err(m)) => m@ == e,
            _ => false,
        },
{
    if let Some(e) = settings::file_error(path, &read) {
        return Err(e);
    }
    match read {
        FileRead::Parsed(v) => Ok(v),
        _ => Ok(Vec::new()),
    }
}

/// The layers among the first `n` files that have nothing wrong.
pub open spec fn good_layers(v: Seq<Result<Vec<Arc<Model>>, String>>, n: int) -> Seq<
    Vec<Arc<Model>>,
>
    decreases n,
{
    if n <= 0 {
        Seq::empty()
    } else {
        match v[n - 1] {
            Ok(layer) => good_layers(v, n - 1).push(layer),
            Err(_) => good_layers(v, n - 1),
        }
    }
}

/// The warnings of those among the first `n` files that have something wrong.
pub open spec fn layer_warnings(v: Seq<Result<Vec<Arc<Model>>, String>>, n: int) -> Seq<Seq<char>>
    decreases n,
{
    if n <= 0 {
        Seq::empty()
    } else {
        match v[n - 1] {
            Ok(_) => layer_warnings(v, n - 1),
            Err(e) => layer_warnings(v, n - 1).push("warning: ignoring models file: "@ + e@),
        }
    }
}

/// The layers that were defined by hand, and what to warn of. A file with
/// something wrong is skipped.
pub fn load_user_models(files: Vec<Result<Vec<Arc<Model>>, String>>) -> (r: (
    Vec<Vec<Arc<Model>>>,
    Vec<String>,
))
    ensures
        r.0@ == good_layers(files@, files@.len() as int),
        text::texts(r.1@) == layer_warnings(files@, files@.len() as int),
{
    let ghost all = files@;
    let mut rest = files;
    let mut layers: Vec<Vec<Arc<Model>>> = Vec::new();
    let mut warnings: Vec<String> = Vec::new();
    let mut i: usize = 0;
    assert(text::texts(warnings@) =~= Seq::empty());
    while i < rest.len()
        invariant
            i <= rest@.len(),
            rest@.len() == all.len(),
            forall|k: int| i <= k < all.len() ==> rest@[k] == #[trigger] all[k],
            layers@ == good_layers(all, i as int),
            text::texts(warnings@) == layer_warnings(all, i as int),
        decreases rest@.len() - i,
    {
        let mut slot: Result<Vec<Arc<Model>>, String> = Ok(Vec::new());
        assert(rest@[i as int] == all[i as int]);
        std::mem::swap(&mut slot, &mut rest[i]);
        match slot {
            Ok(layer) => layers.push(layer),
            Err(e) => {
                let ghost before = text::texts(warnings@);
                warnings.push(concat2("warning: ignoring models file: ", e.as_str()));
                assert(text::texts(warnings@) =~= before.push(
                    "warning: ignoring models file: "@ + e@,
                ));
            },
        }
        i += 1;
    }
    (layers, warnings)
}

/// The catalog without what a network has to be asked for: the models that
/// come with the program, and the layers defined by hand over them.
pub fn build_catalog_offline(builtin: Vec<Arc<Model>>, user: Vec<Vec<Arc<Model>>>) -> (r: Vec<
    Arc<Model>,
>)
    ensures
        r@ == merged(seq![builtin] + user@, user@.len() as int + 1),
{
    let mut layers: Vec<Vec<Arc<Model>>> = Vec::new();
    layers.push(builtin);
    let mut more = user;
    layers.append(&mut more);
    assert(layers@ =~= seq![builtin] + user@);
    merge_models(&layers)
}

proof fn lemma_first_index(v: Seq<Arc<Model>>, id: Seq<char>, from: int)
    requires
        0 <= from <= v.len(),
    ensures
        match model_index(v, id, from) {
            Some(i) => from <= i < v.len() && v[i].id@ == id && forall|k: int|
                from <= k < i ==> (#[trigger] v[k]).id@ != id,
            None => forall|k: int| from <= k < v.len() ==> (#[trigger] v[k]).id@ != id,
        },
    decreases v.len() - from,
{
    if from < v.len() && v[from].id@ != id {
        lemma_first_index(v, id, from + 1);
    }
}

/// A model is found by its id: the first that has it.
pub proof fn law_models_are_found_by_id(v: Seq<Arc<Model>>, id: Seq<char>)
    ensures
        match model_index(v, id, 0) {
            Some(i) => 0 <= i < v.len() && v[i].id@ == id && forall|k: int|
                0 <= k < i ==> (#[trigger] v[k]).id@ != id,
            None => forall|k: int| 0 <= k < v.len() ==> (#[trigger] v[k]).id@ != id,
        },
{
    lemma_first_index(v, id, 0);
}

/// Everything that was discovered is in the catalog afterwards, unless its id
/// was there already.
pub proof fn law_discoveries_are_added(
    v: Seq<Arc<Model>>,
    found: Seq<Arc<Model>>,
    n: int,
    k: int,
)
    requires
        0 <= k < n <= found.len(),
    ensures
        exists|i: int|
            0 <= i < with_discovered(v, found, n).len() && (#[trigger] with_discovered(
                v,
                found,
                n,
            )[i]).id@ == found[k].id@,
        (forall|j: int| 0 <= j < v.len() ==> (#[trigger] v[j]).id@ != found[k].id@) && (forall|
            j: int,
        |
            0 <= j < k ==> (#[trigger] found[j]).id@ != found[k].id@)
            ==> with_discovered(v, found, n).contains(found[k]),
    decreases n,
{
    let before = with_discovered(v, found, n - 1);
    let all = with_discovered(v, found, n);
    lemma_first_index(before, found[n - 1].id@, 0);
    if k == n - 1 {
        match model_index(before, found[k].id@, 0) {
            Some(i) => {
                assert(all[i].id@ == found[k].id@);
                lemma_discovered_from(v, found, n - 1, i);
            },
            None => {
                assert(all[before.len() as int] == found[k]);
            },
        }
    } else {
        law_discoveries_are_added(v, found, n - 1, k);
        let i = choose|i: int| 0 <= i < before.len() && (#[trigger] before[i]).id@ == found[k].id@;
        assert(all[i] == before[i]);
        if before.contains(found[k]) {
            let j = choose|j: int| 0 <= j < before.len() && before[j] == found[k];
            assert(all[j] == found[k]);
        }
    }
}

proof fn lemma_discovered_from(v: Seq<Arc<Model>>, found: Seq<Arc<Model>>, n: int, i: int)
    requires
        0 <= n <= found.len(),
        0 <= i < with_discovered(v, found, n).len(),
    ensures
        (exists|j: int|
            0 <= j < v.len() && (#[trigger] v[j]).id@ == with_discovered(v, found, n)[i].id@) || (
        exists|j: int|
            0 <= j < n && (#[trigger] found[j]).id@ == with_discovered(v, found, n)[i].id@),
    decreases n,
{
    let all = with_discovered(v, found, n);
    if n > 0 {
        let before = with_discovered(v, found, n - 1);
        if i < before.len() {
            lemma_discovered_from(v, found, n - 1, i);
            assert(all[i] == before[i]);
            if exists|j: int| 0 <= j < v.len() && (#[trigger] v[j]).id@ == before[i].id@ {
                let j = choose|j: int| 0 <= j < v.len() && (#[trigger] v[j]).id@ == before[i].id@;
                assert(v[j].id@ == all[i].id@);
            } else {
                let j = choose|j: int|
                    0 <= j < n - 1 && (#[trigger] found[j]).id@ == before[i].id@;
                assert(found[j].id@ == all[i].id@);
            }
        } else {
            assert(found[n - 1].id@ == all[i].id@);
        }
    } else {
        assert(v[i].id@ == all[i].id@);
    }
}

proof fn lemma_good_layers(v: Seq<Result<Vec<Arc<Model>>, String>>, n: int)
    requires
        0 <= n <= v.len(),
    ensures
        good_layers(v, n).map_values(
            |l: Vec<Arc<Model>>| Ok::<Vec<Arc<Model>>, String>(l),
        ) == v.take(n).filter(|r: Result<Vec<Arc<Model>>, String>| r is Ok),
        layer_warnings(v, n) == v.take(n).filter(
            |r: Result<Vec<Arc<Model>>, String>| r is Err,
        ).map_values(
            |r: Result<Vec<Arc<Model>>, String>|
                "warning: ignoring models file: "@ + r->Err_0@,
        ),
    decreases n,
{
    reveal(Seq::filter);
    let good = |r: Result<Vec<Arc<Model>>, String>| r is Ok;
    let bad = |r: Result<Vec<Arc<Model>>, String>| r is Err;
    let wrap = |l: Vec<Arc<Model>>| Ok::<Vec<Arc<Model>>, String>(l);
    let say = |r: Result<Vec<Arc<Model>>, String>|
        "warning: ignoring models file: "@ + r->Err_0@;
    if n > 0 {
        lemma_good_layers(v, n - 1);
        assert(v.take(n).drop_last() =~= v.take(n - 1));
        assert(v.take(n).last() == v[n - 1]);
        match v[n - 1] {
            Ok(l) => {
                assert(good_layers(v, n).map_values(wrap) =~= good_layers(v, n - 1).map_values(
                    wrap,
                ).push(Ok(l)));
            },
            Err(e) => {
                assert(v.take(n).filter(bad).map_values(say) =~= v.take(n - 1).filter(
                    bad,
                ).map_values(say).push(say(v[n - 1])));
            },
        }
    } else {
        assert(v.take(n) =~= Seq::empty());
        assert(good_layers(v, n).map_values(wrap) =~= Seq::empty());
        assert(v.take(n).filter(bad).map_values(say) =~= Seq::empty());
    }
}

/// Every file that could be read is a layer, in its order, and every other
/// one is warned of: one broken file costs no other layer.
pub proof fn law_every_file_is_a_layer_or_a_warning(v: Seq<Result<Vec<Arc<Model>>, String>>)
    ensures
        good_layers(v, v.len() as int).map_values(
            |l: Vec<Arc<Model>>| Ok::<Vec<Arc<Model>>, String>(l),
        ) == v.filter(|r: Result<Vec<Arc<Model>>, String>| r is Ok),
        layer_warnings(v, v.len() as int) == v.filter(
            |r: Result<Vec<Arc<Model>>, String>| r is Err,
        ).map_values(
            |r: Result<Vec<Arc<Model>>, String>|
                "warning: ignoring models file: "@ + r->Err_0@,
        ),
{
    lemma_good_layers(v, v.len() as int);
    assert(v.take(v.len() as int) =~= v);
}

} // verus!
