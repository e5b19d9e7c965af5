//! How the art diff labels each layer of a document against its parent version: added,
//! modified, unchanged or removed, in the order the viewer stacks them (bottom first).

use crate::text::str_eq;
use vstd::prelude::*;

verus! {

/// One paint layer as `maindoc.xml` describes it.
pub struct LayerNode {
    pub name: String,
    pub uuid: String,
    pub opacity: i64,
    pub blend: String,
    pub visible: bool,
    /// `nodetype` (e.g. `paintlayer`); empty when absent.
    pub kind: String,
    /// The `layers/<filename>` data file; empty for group and other non-paint layers.
    pub filename: String,
}

/// A layer as plain values: name, uuid, opacity, blend, visible, kind, filename.
pub type LayerView = (Seq<char>, Seq<char>, i64, Seq<char>, bool, Seq<char>, Seq<char>);

impl View for LayerNode {
    type V = LayerView;

    open spec fn view(&self) -> LayerView {
        (self.name@, self.uuid@, self.opacity, self.blend@, self.visible, self.kind@, self.filename@)
    }
}

/// What happened to a layer since the parent version.
#[derive(Debug, Clone, Copy, PartialEq, Eq, Structural)]
pub enum LayerChange {
    Added,
    Modified,
    Unchanged,
    Removed,
}

/// A layer's identity across versions: its uuid, or its name when it has none.
pub open spec fn layer_key(l: LayerView) -> Seq<char> {
    if l.1.len() == 0 {
        l.0
    } else {
        l.1
    }
}

/// The first layer of `ls` with identity `id`.
pub open spec fn first_match(ls: Seq<LayerView>, id: Seq<char>) -> Option<LayerView>
    decreases ls.len(),
{
    if ls.len() == 0 {
        None
    } else if layer_key(ls[0]) == id {
        Some(ls[0])
    } else {
        first_match(ls.skip(1), id)
    }
}

/// The archive path of a layer's data file in document `doc`.
pub open spec fn entry_path(doc: Seq<char>, filename: Seq<char>) -> Seq<char> {
    doc + "/layers/"@ + filename
}

/// How a layer of the new version changed: added when the parent has no layer with its
/// identity; modified when its opacity, blend mode or name differ, or its data entry is among
/// `changed`; unchanged otherwise.
pub open spec fn change_of(old: Option<Seq<LayerView>>, doc: Seq<char>, changed: Seq<Seq<char>>, nl: LayerView) -> LayerChange {
    match old {
        None => LayerChange::Added,
        Some(ols) => match first_match(ols, layer_key(nl)) {
            None => LayerChange::Added,
            Some(o) => if o.2 != nl.2 || o.3 != nl.3 || o.0 != nl.0 || changed.contains(entry_path(doc, nl.6)) {
                LayerChange::Modified
            } else {
                LayerChange::Unchanged
            },
        },
    }
}

/// Whether some layer of `ls` has identity `id`.
pub open spec fn has_layer(ls: Seq<LayerView>, id: Seq<char>) -> bool {
    exists|i: int| 0 <= i < ls.len() && layer_key(#[trigger] ls[i]) == id
}

/// The parent's layers that the new version no longer has, in the parent's order.
pub open spec fn removed_layers(ols: Seq<LayerView>, news: Seq<LayerView>) -> Seq<LayerView>
    decreases ols.len(),
{
    if ols.len() == 0 {
        Seq::empty()
    } else if has_layer(news, layer_key(ols.last())) {
        removed_layers(ols.drop_last(), news)
    } else {
        removed_layers(ols.drop_last(), news).push(ols.last())
    }
}

/// The labelled layers, top of the document first: every new layer with its change, then every
/// removed parent layer.
pub open spec fn labelled(old: Option<Seq<LayerView>>, doc: Seq<char>, news: Seq<LayerView>, changed: Seq<Seq<char>>) -> Seq<(LayerView, LayerChange)> {
    news.map_values(|nl: LayerView| (nl, change_of(old, doc, changed, nl))) + match old {
        Some(ols) => removed_layers(ols, news).map_values(|o: LayerView| (o, LayerChange::Removed)),
        None => Seq::empty(),
    }
}

/// The labelled layers as values.
pub open spec fn labels_view(r: Seq<(LayerNode, LayerChange)>) -> Seq<(LayerView, LayerChange)> {
    r.map_values(|e: (LayerNode, LayerChange)| (e.0@, e.1))
}

/// An exact copy of a layer.
pub fn copy_layer(l: &LayerNode) -> (r: LayerNode)
    ensures
        r@ == l@,
{
    LayerNode {
        name: l.name.clone(),
        uuid: l.uuid.clone(),
        opacity: l.opacity,
        blend: l.blend.clone(),
        visible: l.visible,
        kind: l.kind.clone(),
        filename: l.filename.clone(),
    }
}

fn key_of(l: &LayerNode) -> (r: &str)
    ensures
        r@ == layer_key(l@),
{
    if l.uuid.as_str().unicode_len() == 0 {
        l.name.as_str()
    } else {
        l.uuid.as_str()
    }
}

fn find_layer(ls: &Vec<LayerNode>, id: &str) -> (r: Option<usize>)
    ensures
        match r {
            Some(i) => i < ls@.len() && first_match(ls@.map_values(|l: LayerNode| l@), id@) == Some(ls@[i as int]@),
            None => first_match(ls@.map_values(|l: LayerNode| l@), id@) is None && !has_layer(ls@.map_values(|l: LayerNode| l@), id@),
        },
{
    let ghost vs = ls@.map_values(|l: LayerNode| l@);
    assert(vs.skip(0) =~= vs);
    let mut i: usize = 0;
    while i < ls.len()
        invariant
            i <= ls@.len(),
            vs == ls@.map_values(|l: LayerNode| l@),
            first_match(vs, id@) == first_match(vs.skip(i as int), id@),
            forall|j: int| 0 <= j < i ==> layer_key(#[trigger] vs[j]) != id@,
        decreases ls@.len() - i,
    {
        let ghost rest = vs.skip(i as int);
        assert(rest[0] == vs[i as int]);
        assert(rest.skip(1) =~= vs.skip(i + 1));
        if str_eq(key_of(&ls[i]), id) {
            return Some(i);
        }
        i += 1;
    }
    proof {
        assert(vs.skip(i as int) =~= Seq::<LayerView>::empty());
        lemma_first_match_found(vs, id@);
    }
    None
}

fn push_chars(out: &mut Vec<char>, more: &Vec<char>)
    ensures
        final(out)@ == old(out)@ + more@,
{
    let ghost start = out@;
    let mut i: usize = 0;
    while i < more.len()
        invariant
            i <= more@.len(),
            out@ == start + more@.take(i as int),
        decreases more@.len() - i,
    {
        out.push(more[i]);
        assert(more@.take(i + 1) =~= more@.take(i as int).push(more@[i as int]));
        i += 1;
    }
    assert(more@.take(more@.len() as int) =~= more@);
}

fn contains_path(paths: &Vec<String>, p: &Vec<char>) -> (r: bool)
    ensures
        r == paths@.map_values(|s: String| s@).contains(p@),
{
    let ghost ps = paths@.map_values(|s: String| s@);
    let target = crate::text::string_of_chars(p.as_slice());
    let mut i: usize = 0;
    while i < paths.len()
        invariant
            i <= paths@.len(),
            target@ == p@,
            ps == paths@.map_values(|s: String| s@),
            forall|j: int| 0 <= j < i ==> ps[j] != p@,
        decreases paths@.len() - i,
    {
        if str_eq(paths[i].as_str(), target.as_str()) {
            assert(ps[i as int] == p@);
            return true;
        }
        i += 1;
    }
    false
}

/// Label the layers of the new version (`doc` is its document name, `news` its layers, top
/// first) against the parent's layers `old` (absent for a first version), given the layer data
/// entries whose tiles changed. Gives each new layer with its change, then each removed parent
/// layer, reversed so that the bottom layer comes first.
pub fn classify_layers(old: Option<&Vec<LayerNode>>, doc: &str, news: &Vec<LayerNode>, changed: &Vec<String>) -> (r: Vec<(LayerNode, LayerChange)>)
    ensures
        labels_view(r@) == labelled(
            match old {
                Some(o) => Some(o@.map_values(|l: LayerNode| l@)),
                None => None,
            },
            doc@,
            news@.map_values(|l: LayerNode| l@),
            changed@.map_values(|s: String| s@),
        ).reverse(),
{
    let ghost ov: Option<Seq<LayerView>> = match old {
        Some(o) => Some(o@.map_values(|l: LayerNode| l@)),
        None => None,
    };
    let ghost nv = news@.map_values(|l: LayerNode| l@);
    let ghost cv = changed@.map_values(|s: String| s@);
    let ghost full = labelled(ov, doc@, nv, cv);
    let mut fwd: Vec<(LayerNode, LayerChange)> = Vec::new();
    let mut i: usize = 0;
    while i < news.len()
        invariant
            i <= news@.len(),
            nv == news@.map_values(|l: LayerNode| l@),
            cv == changed@.map_values(|s: String| s@),
            ov == match old {
                Some(o) => Some(o@.map_values(|l: LayerNode| l@)),
                None => None,
            },
            labels_view(fwd@) == nv.take(i as int).map_values(|nl: LayerView| (nl, change_of(ov, doc@, cv, nl))),
        decreases news@.len() - i,
    {
        let nl = &news[i];
        let change = match old {
            None => LayerChange::Added,
            Some(ols) => match find_layer(ols, key_of(nl)) {
                None => LayerChange::Added,
                Some(j) => {
                    let o = &ols[j];
                    let mut path: Vec<char> = crate::text::chars_of(doc);
                    let mid = crate::text::chars_of("/layers/");
                    let file = crate::text::chars_of(nl.filename.as_str());
                    proof {
                        reveal_strlit("/layers/");
                    }
                    push_chars(&mut path, &mid);
                    push_chars(&mut path, &file);
                    assert(path@ =~= entry_path(doc@, nl.filename@));
                    if o.opacity != nl.opacity || !str_eq(o.blend.as_str(), nl.blend.as_str())
                        || !str_eq(o.name.as_str(), nl.name.as_str()) || contains_path(changed, &path) {
                        LayerChange::Modified
                    } else {
                        LayerChange::Unchanged
                    }
                },
            },
        };
        let ghost before = labels_view(fwd@);
        fwd.push((copy_layer(nl), change));
        proof {
            assert(nv[i as int] == nl@);
            assert(labels_view(fwd@) =~= before.push((nl@, change)));
            assert(nv.take(i + 1) =~= nv.take(i as int).push(nl@));
        }
        i += 1;
    }
    proof {
        assert(nv.take(news@.len() as int) =~= nv);
    }
    match old {
        None => {},
        Some(ols) => {
            let ghost olv = ols@.map_values(|l: LayerNode| l@);
            let ghost base = labels_view(fwd@);
            let mut k: usize = 0;
            while k < ols.len()
                invariant
                    k <= ols@.len(),
                    olv == ols@.map_values(|l: LayerNode| l@),
                    nv == news@.map_values(|l: LayerNode| l@),
                    labels_view(fwd@) == base + removed_layers(olv.take(k as int), nv).map_values(|o: LayerView| (o, LayerChange::Removed)),
                decreases ols@.len() - k,
            {
                let o = &ols[k];
                let ghost pre = labels_view(fwd@);
                proof {
                    assert(olv.take(k + 1).drop_last() =~= olv.take(k as int));
                    assert(olv.take(k + 1).last() == o@);
                }
                if find_layer(news, key_of(o)).is_none() {
                    fwd.push((copy_layer(o), LayerChange::Removed));
                    proof {
                        assert(labels_view(fwd@) =~= pre.push((o@, LayerChange::Removed)));
                        assert(removed_layers(olv.take(k + 1), nv) == removed_layers(olv.take(k as int), nv).push(o@));
                        assert(labels_view(fwd@) =~= base + removed_layers(olv.take(k + 1), nv).map_values(|o: LayerView| (o, LayerChange::Removed)));
                    }
                } else {
                    proof {
                        lemma_first_match_found(nv, layer_key(o@));
                        assert(removed_layers(olv.take(k + 1), nv) == removed_layers(olv.take(k as int), nv));
                    }
                }
                k += 1;
            }
            proof {
                assert(olv.take(ols@.len() as int) =~= olv);
            }
        },
    }
    proof {
        assert(labels_view(fwd@) =~= full);
    }
    let mut out: Vec<(LayerNode, LayerChange)> = Vec::new();
    let mut n: usize = fwd.len();
    while n > 0
        invariant
            n <= fwd@.len(),
            labels_view(out@) == labels_view(fwd@).reverse().take(fwd@.len() - n),
        decreases n,
    {
        let e = &fwd[n - 1];
        let ghost pre = labels_view(out@);
        out.push((copy_layer(&e.0), e.1));
        proof {
            let rv = labels_view(fwd@).reverse();
            assert(rv[fwd@.len() - n] == labels_view(fwd@)[n - 1]);
            assert(labels_view(out@) =~= pre.push((e.0@, e.1)));
            assert(rv.take(fwd@.len() - n + 1) =~= rv.take(fwd@.len() - n).push(rv[fwd@.len() - n]));
        }
        n -= 1;
    }
    proof {
        assert(labels_view(fwd@).reverse().take(fwd@.len() as int) =~= labels_view(fwd@).reverse());
    }
    out
}

proof fn lemma_first_match_found(ls: Seq<LayerView>, id: Seq<char>)
    ensures
        first_match(ls, id) matches Some(l) ==> layer_key(l) == id && has_layer(ls, id),
        first_match(ls, id) is None ==> !has_layer(ls, id),
    decreases ls.len(),
{
    if ls.len() > 0 {
        lemma_first_match_found(ls.skip(1), id);
        if layer_key(ls[0]) != id {
            if has_layer(ls, id) {
                let i = choose|i: int| 0 <= i < ls.len() && layer_key(#[trigger] ls[i]) == id;
                assert(ls.skip(1)[i - 1] == ls[i]);
            }
            if has_layer(ls.skip(1), id) {
                let i = choose|i: int| 0 <= i < ls.skip(1).len() && layer_key(#[trigger] ls.skip(1)[i]) == id;
                assert(ls[i + 1] == ls.skip(1)[i]);
            }
        }
    }
}

proof fn lemma_first_match_index(ls: Seq<LayerView>, id: Seq<char>, i: int)
    requires
        0 <= i < ls.len(),
        layer_key(ls[i]) == id,
        forall|j: int| 0 <= j < i ==> layer_key(#[trigger] ls[j]) != id,
    ensures
        first_match(ls, id) == Some(ls[i]),
    decreases i,
{
    if i > 0 {
        assert(layer_key(ls[0]) != id);
        assert forall|j: int| 0 <= j < i - 1 implies layer_key(#[trigger] ls.skip(1)[j]) != id by {
            assert(ls.skip(1)[j] == ls[j + 1]);
        }
        lemma_first_match_index(ls.skip(1), id, i - 1);
    }
}

/// A layer's label against its parent: added when the parent holds no layer with its identity
/// (uuid, or name when it has none) or there is no parent; otherwise, taking the parent's first
/// layer with that identity, unchanged exactly when opacity, blend mode and name are all the same
/// and its data entry is not among the changed entries, modified in every other case.
pub proof fn lemma_change_of_layer(
    ols: Seq<LayerView>,
    doc: Seq<char>,
    changed: Seq<Seq<char>>,
    nl: LayerView,
    i: int,
)
    requires
        0 <= i < ols.len(),
        layer_key(ols[i]) == layer_key(nl),
        forall|j: int| 0 <= j < i ==> layer_key(#[trigger] ols[j]) != layer_key(nl),
    ensures
        (change_of(Some(ols), doc, changed, nl) == LayerChange::Unchanged) == (ols[i].2 == nl.2 && ols[i].3 == nl.3
            && ols[i].0 == nl.0 && !changed.contains(doc + "/layers/"@ + nl.6)),
        (change_of(Some(ols), doc, changed, nl) == LayerChange::Modified) == !(ols[i].2 == nl.2 && ols[i].3 == nl.3
            && ols[i].0 == nl.0 && !changed.contains(doc + "/layers/"@ + nl.6)),
        change_of(None, doc, changed, nl) == LayerChange::Added,
{
    lemma_first_match_index(ols, layer_key(nl), i);
}

/// The labels, before their reversal to viewer order, are the new layers in order, each with
/// its change against the parent, followed only by `Removed` entries.
pub proof fn lemma_labelled_entries(
    old: Option<Seq<LayerView>>,
    doc: Seq<char>,
    news: Seq<LayerView>,
    changed: Seq<Seq<char>>,
)
    ensures
        labelled(old, doc, news, changed).len() >= news.len(),
        forall|k: int|
            0 <= k < news.len() ==> #[trigger] labelled(old, doc, news, changed)[k] == (news[k], change_of(old, doc, changed, news[k])),
        forall|k: int|
            news.len() <= k < labelled(old, doc, news, changed).len() ==> (#[trigger] labelled(old, doc, news, changed)[k]).1
                == LayerChange::Removed,
{
}

/// A layer whose identity the parent does not hold is labelled added.
pub proof fn lemma_change_of_new_layer(ols: Seq<LayerView>, doc: Seq<char>, changed: Seq<Seq<char>>, nl: LayerView)
    requires
        forall|j: int| 0 <= j < ols.len() ==> layer_key(#[trigger] ols[j]) != layer_key(nl),
    ensures
        change_of(Some(ols), doc, changed, nl) == LayerChange::Added,
{
    lemma_first_match_found(ols, layer_key(nl));
}

/// Where the "before" picture of a layer comes from.
#[derive(Debug, Clone, Copy, PartialEq, Eq, Structural)]
pub enum BeforeSide {
    /// No before picture: the layer is new.
    Absent,
    /// The same picture as after: the layer is unchanged.
    SameAsAfter,
    /// Rasterized from the parent version's layer.
    FromParent,
}

/// What the viewer builds for one labelled layer: whether it has an "after" raster (every
/// layer still present), where its "before" raster comes from, and whether a change highlight
/// is drawn (modified layers only).
pub struct LayerPlan {
    pub layer: LayerNode,
    pub change: LayerChange,
    pub after: bool,
    pub before: BeforeSide,
    pub highlight: bool,
}

/// The rasters a layer with this change calls for: `(after, before, highlight)`.
pub open spec fn rasters_for(change: LayerChange) -> (bool, BeforeSide, bool) {
    match change {
        LayerChange::Added => (true, BeforeSide::Absent, false),
        LayerChange::Modified => (true, BeforeSide::FromParent, true),
        LayerChange::Unchanged => (true, BeforeSide::SameAsAfter, false),
        LayerChange::Removed => (false, BeforeSide::FromParent, false),
    }
}

/// One plan per labelled layer, in order (see [`rasters_for`]).
pub fn plan_layers(labels: &Vec<(LayerNode, LayerChange)>) -> (r: Vec<LayerPlan>)
    ensures
        r@.len() == labels@.len(),
        forall|i: int| 0 <= i < r@.len() ==> {
            &&& (#[trigger] r@[i]).layer@ == labels@[i].0@
            &&& r@[i].change == labels@[i].1
            &&& (r@[i].after, r@[i].before, r@[i].highlight) == rasters_for(labels@[i].1)
        },
{
    let mut out: Vec<LayerPlan> = Vec::new();
    let mut i: usize = 0;
    while i < labels.len()
        invariant
            i <= labels@.len(),
            out@.len() == i,
            forall|j: int| 0 <= j < i ==> {
                &&& (#[trigger] out@[j]).layer@ == labels@[j].0@
                &&& out@[j].change == labels@[j].1
                &&& (out@[j].after, out@[j].before, out@[j].highlight) == rasters_for(labels@[j].1)
            },
        decreases labels@.len() - i,
    {
        let change = labels[i].1;
        let (after, before, highlight) = match change {
            LayerChange::Added => (true, BeforeSide::Absent, false),
            LayerChange::Modified => (true, BeforeSide::FromParent, true),
            LayerChange::Unchanged => (true, BeforeSide::SameAsAfter, false),
            LayerChange::Removed => (false, BeforeSide::FromParent, false),
        };
        out.push(LayerPlan { layer: copy_layer(&labels[i].0), change, after, before, highlight });
        i += 1;
    }
    out
}

} // verus!
