//! The merge plan: which layer's file owns each path of the merged tree.
//!
//! The merged tree is rebuilt from empty on every run. The planner walks the
//! layers in processing order — descending lexical order of layer path, the
//! highest priority first — and gives each relative path to the first layer
//! that offers a filtered-in file there: first writer wins. When the base
//! file is to be linked, it is linked before any layer is processed, so its
//! path is owned before the layers are considered. The plan records exactly
//! the hard links to make; carrying it out in order, or within one layer in
//! any order, yields the same tree.

use vstd::prelude::*;
use crate::lex::{bytes_eq, bytes_copy, bytes_of, lex_lt, lex_le};
use crate::filter::{FileEntry, EntryModel, mergeable, is_mergeable};
use crate::layers::{names_of, strictly_descending, lemma_names_push};

verus! {

/// The filtered-in files of one layer, in the order they were found.
pub struct LayerFiles {
    /// Every entry found under the layer root, directories included.
    pub files: Vec<FileEntry>,
}

impl View for LayerFiles {
    type V = Seq<EntryModel>;

    open spec fn view(&self) -> Seq<EntryModel> {
        Seq::new(self.files@.len(), |k: int| self.files@[k]@)
    }
}

/// The views of a vector of layers.
pub open spec fn layer_models(s: Seq<LayerFiles>) -> Seq<Seq<EntryModel>> {
    Seq::new(s.len(), |i: int| s[i]@)
}

/// The name of the base file linked into the merged tree root, `rules.txt`.
pub open spec fn base_file_name() -> Seq<u8> {
    seq![114u8, 117u8, 108u8, 101u8, 115u8, 46u8, 116u8, 120u8, 116u8]
}

/// Bytes of `rules.txt`.
pub fn base_file_bytes() -> (r: [u8; 9])
    ensures
        r@ == base_file_name(),
{
    let a: [u8; 9] = [114, 117, 108, 101, 115, 46, 116, 120, 116];
    proof {
        assert(a@ =~= base_file_name());
    }
    a
}

/// A layer offers `rel`: one of its entries lies at that path and passes
/// the filter.
pub open spec fn offers(layer: Seq<EntryModel>, rel: Seq<u8>) -> bool {
    exists|k: int| 0 <= k < layer.len() && (#[trigger] layer[k]).rel == rel && mergeable(layer[k])
}

/// Layer `i` wins `rel`: it offers it and no layer of higher priority —
/// earlier in processing order — offers it.
pub open spec fn wins(layers: Seq<Seq<EntryModel>>, rel: Seq<u8>, i: int) -> bool {
    &&& 0 <= i < layers.len()
    &&& offers(layers[i], rel)
    &&& forall|j: int| 0 <= j < i ==> !offers(#[trigger] layers[j], rel)
}

/// One planned hard link: the file at `rel` under layer `layer` becomes the
/// merged tree's file at `rel`.
#[derive(Debug, PartialEq, Eq)]
pub struct PlannedLink {
    /// Index of the owning layer, in processing order.
    pub layer: usize,
    /// The relative path, owned by that layer.
    pub rel: Vec<u8>,
}

/// The complete merge plan for one run.
#[derive(Debug, PartialEq, Eq)]
pub struct Plan {
    /// Whether the base file is hard-linked into the fresh merged tree
    /// before any layer is processed.
    pub link_base: bool,
    /// The hard links to make, in processing order of their layers.
    pub links: Vec<PlannedLink>,
}

/// The link list assigns `rel` to layer `i`.
pub open spec fn links_assign(links: Seq<PlannedLink>, i: int, rel: Seq<u8>) -> bool {
    exists|m: int|
        0 <= m < links.len() && (#[trigger] links[m]).layer as int == i && links[m].rel@ == rel
}

/// The plan assigns `rel` to layer `i`.
pub open spec fn plan_links(p: Plan, i: int, rel: Seq<u8>) -> bool {
    links_assign(p.links@, i, rel)
}

/// The planner's whole contract. A plan matches an input iff: the base file
/// is linked exactly when not skipped; every planned link goes to the
/// winning layer of its path; the base file's path, once linked, is owned
/// and never planned again; every won path not shadowed by the base file is
/// planned; and no path is planned twice.
pub open spec fn plan_matches(p: Plan, skip_base: bool, layers: Seq<Seq<EntryModel>>) -> bool {
    &&& p.link_base == !skip_base
    &&& forall|m: int|
        0 <= m < p.links@.len() ==> wins(
            layers,
            (#[trigger] p.links@[m]).rel@,
            p.links@[m].layer as int,
        )
    &&& forall|m: int|
        0 <= m < p.links@.len() ==> (p.link_base ==> (#[trigger] p.links@[m]).rel@
            != base_file_name())
    &&& forall|rel: Seq<u8>, i: int|
        #[trigger] wins(layers, rel, i) && !(p.link_base && rel == base_file_name())
            ==> plan_links(p, i, rel)
    &&& forall|m1: int, m2: int|
        0 <= m1 < m2 < p.links@.len() ==> (#[trigger] p.links@[m1]).rel@
            != (#[trigger] p.links@[m2]).rel@
}

/// Some layer before `i` offers `rel`.
pub open spec fn taken_before(layers: Seq<Seq<EntryModel>>, i: int, rel: Seq<u8>) -> bool {
    exists|j: int| 0 <= j < i && offers(#[trigger] layers[j], rel)
}

/// One of the first `k` entries of a layer lies at `rel` and passes the
/// filter.
spec fn offered_prefix(layer: Seq<EntryModel>, k: int, rel: Seq<u8>) -> bool {
    exists|k2: int|
        0 <= k2 < k && (#[trigger] layer[k2]).rel == rel && mergeable(layer[k2])
}

/// Whether a path is already owned in the merged tree under construction.
fn seen_contains(seen: &Vec<Vec<u8>>, rel: &Vec<u8>) -> (r: bool)
    ensures
        r == names_of(seen@).contains(rel@),
{
    for m in 0..seen.len()
        invariant
            forall|j: int| 0 <= j < m ==> names_of(seen@)[j] != rel@,
    {
        if bytes_eq(&seen[m], rel) {
            assert(names_of(seen@)[m as int] == rel@);
            return true;
        }
    }
    proof {
        if names_of(seen@).contains(rel@) {
            let w = choose|w: int| 0 <= w < seen@.len() && names_of(seen@)[w] == rel@;
        }
    }
    false
}

/// Computes the merge plan: first writer wins, in layer processing order.
///
/// `layers` stand in processing order — descending priority, the highest
/// first. When `skip_base` is false the base file is linked into the fresh
/// tree before any layer, and so owns its path against every layer.
pub fn plan_merge(skip_base: bool, layers: &Vec<LayerFiles>) -> (p: Plan)
    ensures
        plan_matches(p, skip_base, layer_models(layers@)),
{
    let ghost ms = layer_models(layers@);
    let mut links: Vec<PlannedLink> = Vec::new();
    let mut seen: Vec<Vec<u8>> = Vec::new();
    if !skip_base {
        let base = bytes_of(base_file_bytes().as_slice());
        proof {
            lemma_names_push(seen@, base);
        }
        seen.push(base);
    }
    proof {
        assert forall|rel: Seq<u8>|
            #![trigger names_of(seen@).contains(rel)]
            names_of(seen@).contains(rel) <==> ((!skip_base && rel == base_file_name())
                || taken_before(ms, 0, rel)) by {
            if taken_before(ms, 0, rel) {
                let j = choose|j: int| 0 <= j < 0 && offers(#[trigger] ms[j], rel);
            }
            if skip_base && names_of(seen@).contains(rel) {
                let w = choose|w: int| 0 <= w < seen@.len() && names_of(seen@)[w] == rel;
            }
        }
    }
    for i in 0..layers.len()
        invariant
            ms == layer_models(layers@),
            forall|rel: Seq<u8>|
                #![trigger names_of(seen@).contains(rel)]
                names_of(seen@).contains(rel) <==> ((!skip_base && rel == base_file_name())
                    || taken_before(ms, i as int, rel)),
            forall|m: int|
                0 <= m < links@.len() ==> wins(
                    ms,
                    (#[trigger] links@[m]).rel@,
                    links@[m].layer as int,
                ) && links@[m].layer < i,
            forall|m: int|
                0 <= m < links@.len() ==> (!skip_base ==> (#[trigger] links@[m]).rel@
                    != base_file_name()),
            forall|rel: Seq<u8>, j: int|
                #[trigger] wins(ms, rel, j) && j < i && !(!skip_base && rel == base_file_name())
                    ==> links_assign(links@, j, rel),
            forall|m: int|
                0 <= m < links@.len() ==> names_of(seen@).contains((#[trigger] links@[m]).rel@),
            forall|m1: int, m2: int|
                0 <= m1 < m2 < links@.len() ==> (#[trigger] links@[m1]).rel@
                    != (#[trigger] links@[m2]).rel@,
    {
        let layer = &layers[i];
        proof {
            assert(ms[i as int] == layers@[i as int]@);
            assert forall|rel: Seq<u8>|
                #![trigger names_of(seen@).contains(rel)]
                names_of(seen@).contains(rel) <==> ((!skip_base && rel == base_file_name())
                    || taken_before(ms, i as int, rel) || offered_prefix(ms[i as int], 0, rel)) by {
                if offered_prefix(ms[i as int], 0, rel) {
                    let k2 = choose|k2: int|
                        0 <= k2 < 0 && (#[trigger] ms[i as int][k2]).rel == rel && mergeable(
                            ms[i as int][k2],
                        );
                }
            }
            assert forall|rel: Seq<u8>|
                #![trigger links_assign(links@, i as int, rel)]
                offered_prefix(ms[i as int], 0, rel) && !taken_before(ms, i as int, rel) && !(
                !skip_base && rel == base_file_name()) implies links_assign(
                links@,
                i as int,
                rel,
            ) by {
                let k2 = choose|k2: int|
                    0 <= k2 < 0 && (#[trigger] ms[i as int][k2]).rel == rel && mergeable(
                        ms[i as int][k2],
                    );
            }
        }
        for k in 0..layer.files.len()
            invariant
                ms == layer_models(layers@),
                layer == &layers@[i as int],
                i < layers@.len(),
                ms[i as int] == layer@,
                forall|rel: Seq<u8>|
                    #![trigger names_of(seen@).contains(rel)]
                    names_of(seen@).contains(rel) <==> ((!skip_base && rel == base_file_name())
                        || taken_before(ms, i as int, rel)
                        || offered_prefix(ms[i as int], k as int, rel)),
                forall|m: int|
                    0 <= m < links@.len() ==> wins(
                        ms,
                        (#[trigger] links@[m]).rel@,
                        links@[m].layer as int,
                    ) && links@[m].layer <= i,
                forall|m: int|
                    0 <= m < links@.len() ==> (!skip_base ==> (#[trigger] links@[m]).rel@
                        != base_file_name()),
                forall|rel: Seq<u8>, j: int|
                    #[trigger] wins(ms, rel, j) && j < i && !(!skip_base && rel
                        == base_file_name()) ==> links_assign(links@, j, rel),
                forall|rel: Seq<u8>|
                    #![trigger links_assign(links@, i as int, rel)]
                    offered_prefix(ms[i as int], k as int, rel) && !taken_before(ms, i as int, rel)
                        && !(!skip_base && rel == base_file_name()) ==> links_assign(links@, i as int, rel),
                forall|m: int|
                    0 <= m < links@.len() ==> names_of(seen@).contains(
                        (#[trigger] links@[m]).rel@,
                    ),
                forall|m1: int, m2: int|
                    0 <= m1 < m2 < links@.len() ==> (#[trigger] links@[m1]).rel@
                        != (#[trigger] links@[m2]).rel@,
        {
            let e = &layer.files[k];
            proof {
                assert(layer@[k as int] == layer.files@[k as int]@);
            }
            if is_mergeable(e) {
                if !seen_contains(&seen, &e.rel) {
                    let ghost old_links = links@;
                    let ghost old_seen = seen@;
                    let rel_copy = bytes_copy(&e.rel);
                    proof {
                        lemma_names_push(seen@, rel_copy);
                    }
                    seen.push(rel_copy);
                    let link_rel = bytes_copy(&e.rel);
                    links.push(PlannedLink { layer: i, rel: link_rel });
                    proof {
                        // The new link goes to the winning layer: this layer
                        // offers the path, and no earlier layer does, else the
                        // path were already owned.
                        assert(offers(ms[i as int], e.rel@));
                        assert(!taken_before(ms, i as int, e.rel@));
                        assert(wins(ms, e.rel@, i as int));
                        assert forall|m: int|
                            0 <= m < links@.len() implies wins(
                                ms,
                                (#[trigger] links@[m]).rel@,
                                links@[m].layer as int,
                            ) && links@[m].layer <= i by {
                            if m < old_links.len() {
                                assert(links@[m] == old_links[m]);
                            } else {
                                assert(links@[m].rel@ == e.rel@);
                            }
                        }
                        assert forall|rel: Seq<u8>, j: int|
                            #[trigger] wins(ms, rel, j) && j < i && !(!skip_base && rel
                                == base_file_name()) implies links_assign(links@, j, rel) by {
                            assert(links_assign(old_links, j, rel));
                            let w = choose|w: int|
                                0 <= w < old_links.len() && (#[trigger] old_links[w]).layer as int
                                    == j && old_links[w].rel@ == rel;
                            assert(links@[w] == old_links[w]);
                        }
                        assert forall|rel: Seq<u8>|
                            #![trigger links_assign(links@, i as int, rel)]
                            offered_prefix(ms[i as int], k + 1, rel) && !taken_before(
                                ms,
                                i as int,
                                rel,
                            ) && !(!skip_base && rel == base_file_name()) implies links_assign(links@, i as int, rel) by {
                            if rel == e.rel@ {
                                assert(links@[links@.len() - 1].rel@ == rel);
                                assert(links@[links@.len() - 1].layer as int == i as int);
                            } else {
                                assert(ms[i as int][k as int].rel == e.rel@);
                                assert(offered_prefix(ms[i as int], k as int, rel));
                                assert(links_assign(old_links, i as int, rel));
                                let w = choose|w: int|
                                    0 <= w < old_links.len() && (#[trigger] old_links[w]).layer
                                        as int == i as int && old_links[w].rel@ == rel;
                                assert(links@[w] == old_links[w]);
                            }
                        }
                        assert forall|m: int|
                            0 <= m < links@.len() implies names_of(seen@).contains(
                                (#[trigger] links@[m]).rel@,
                            ) by {
                            if m < old_links.len() {
                                assert(links@[m] == old_links[m]);
                                assert(names_of(old_seen).contains(links@[m].rel@));
                            } else {
                                assert(links@[m].rel@ == e.rel@);
                            }
                        }
                        assert forall|m1: int, m2: int|
                            0 <= m1 < m2 < links@.len() implies (#[trigger] links@[m1]).rel@
                                != (#[trigger] links@[m2]).rel@ by {
                            if m2 < old_links.len() {
                                assert(links@[m1] == old_links[m1]);
                                assert(links@[m2] == old_links[m2]);
                            } else {
                                assert(links@[m1] == old_links[m1]);
                                assert(names_of(old_seen).contains(links@[m1].rel@));
                                assert(links@[m2].rel@ == e.rel@);
                            }
                        }
                    }
                } else {
                    proof {
                        assert forall|rel: Seq<u8>|
                            names_of(seen@).contains(rel) <==> ((!skip_base && rel
                                == base_file_name()) || taken_before(ms, i as int, rel)
                                || offered_prefix(ms[i as int], k + 1, rel)) by {
                            if offered_prefix(ms[i as int], k + 1, rel) && !offered_prefix(
                                ms[i as int],
                                k as int,
                                rel,
                            ) {
                                assert(rel == e.rel@);
                            }
                        }
                        assert forall|rel: Seq<u8>|
                            #![trigger links_assign(links@, i as int, rel)]
                            offered_prefix(ms[i as int], k + 1, rel) && !taken_before(
                                ms,
                                i as int,
                                rel,
                            ) && !(!skip_base && rel == base_file_name()) implies links_assign(links@, i as int, rel) by {
                            if !offered_prefix(ms[i as int], k as int, rel) {
                                assert(ms[i as int][k as int].rel == e.rel@);
                                assert(rel == e.rel@);
                                // The path is already owned: by the base file,
                                // by an earlier layer, or by an earlier entry
                                // of this layer. The first two are excluded
                                // here, so an earlier entry owns it and the
                                // link is already planned.
                                assert(names_of(seen@).contains(rel));
                            }
                        }
                    }
                }
            } else {
                proof {
                    assert forall|rel: Seq<u8>|
                        #![trigger links_assign(links@, i as int, rel)]
                        offered_prefix(ms[i as int], k + 1, rel) && !taken_before(
                            ms,
                            i as int,
                            rel,
                        ) && !(!skip_base && rel == base_file_name()) implies links_assign(links@, i as int, rel) by {
                        if !offered_prefix(ms[i as int], k as int, rel) {
                            assert(ms[i as int][k as int] == layer@[k as int]);
                            assert(rel == e.rel@ && mergeable(layer@[k as int]));
                        }
                    }
                    assert forall|rel: Seq<u8>|
                        names_of(seen@).contains(rel) <==> ((!skip_base && rel
                            == base_file_name()) || taken_before(ms, i as int, rel)
                            || offered_prefix(ms[i as int], k + 1, rel)) by {
                        if offered_prefix(ms[i as int], k + 1, rel) && !offered_prefix(
                            ms[i as int],
                            k as int,
                            rel,
                        ) {
                            assert(rel == e.rel@ && mergeable(layer@[k as int]));
                        }
                    }
                }
            }
        }
        proof {
            // A full pass over layer i turns its offered prefix into the
            // whole layer's offer, and extends the taken set by it.
            assert forall|rel: Seq<u8>|
                taken_before(ms, i + 1, rel) <==> (taken_before(ms, i as int, rel) || offers(
                    ms[i as int],
                    rel,
                )) by {
                if taken_before(ms, i + 1, rel) {
                    let j = choose|j: int| 0 <= j < i + 1 && offers(#[trigger] ms[j], rel);
                    if j < i {
                        assert(taken_before(ms, i as int, rel));
                    }
                }
                if taken_before(ms, i as int, rel) {
                    let j = choose|j: int| 0 <= j < i && offers(#[trigger] ms[j], rel);
                    assert(0 <= j < i + 1 && offers(ms[j], rel));
                }
                if offers(ms[i as int], rel) {
                    assert(0 <= i < i + 1 && offers(ms[i as int], rel));
                }
            }
            assert forall|rel: Seq<u8>|
                offers(ms[i as int], rel) == offered_prefix(
                    ms[i as int],
                    layer.files@.len() as int,
                    rel,
                ) by {}
            assert forall|rel: Seq<u8>|
                #![trigger names_of(seen@).contains(rel)]
                names_of(seen@).contains(rel) <==> ((!skip_base && rel == base_file_name())
                    || taken_before(ms, i + 1, rel)) by {
                assert(names_of(seen@).contains(rel) <==> ((!skip_base && rel
                    == base_file_name()) || taken_before(ms, i as int, rel) || offered_prefix(
                    ms[i as int],
                    layer.files@.len() as int,
                    rel,
                )));
                assert(taken_before(ms, i + 1, rel) <==> (taken_before(ms, i as int, rel)
                    || offers(ms[i as int], rel)));
            }
            assert forall|rel: Seq<u8>, j: int|
                #[trigger] wins(ms, rel, j) && j < i + 1 && !(!skip_base && rel
                    == base_file_name()) implies links_assign(links@, j, rel) by {
                if j == i {
                    assert(offers(ms[i as int], rel));
                    assert(!taken_before(ms, i as int, rel));
                    assert(offered_prefix(ms[i as int], layer.files@.len() as int, rel));
                    assert(links_assign(links@, i as int, rel));
                }
            }
        }
    }
    let p = Plan { link_base: !skip_base, links };
    proof {
        assert forall|rel: Seq<u8>, i: int|
            #[trigger] wins(ms, rel, i) && !(p.link_base && rel == base_file_name())
                implies plan_links(p, i, rel) by {
            assert(i < layers@.len());
        }
    }
    p
}

/// Law: priority. The planned owner of a path is a layer of maximal
/// priority among those offering it: every other layer that offers the path
/// stands no earlier in processing order, and — the layer list being
/// strictly descending — carries a lexically smaller or equal path.
pub proof fn lemma_priority(
    layers: Seq<Seq<EntryModel>>,
    names: Seq<Seq<u8>>,
    rel: Seq<u8>,
    w: int,
    j: int,
)
    requires
        names.len() == layers.len(),
        strictly_descending(names),
        wins(layers, rel, w),
        0 <= j < layers.len(),
        offers(layers[j], rel),
    ensures
        w <= j,
        lex_le(names[j], names[w]),
{
    if j < w {
        assert(!offers(layers[j], rel));
    }
    if w < j {
        assert(lex_lt(names[j], names[w]));
    }
}

/// Law: filtering. A path at which every entry of every layer fails the
/// filter is never planned, whichever layer holds it.
pub proof fn lemma_filtered_excluded(
    p: Plan,
    skip_base: bool,
    layers: Seq<Seq<EntryModel>>,
    rel: Seq<u8>,
)
    requires
        plan_matches(p, skip_base, layers),
        forall|i: int, k: int|
            0 <= i < layers.len() && 0 <= k < layers[i].len() && (#[trigger] layers[i][k]).rel
                == rel ==> !mergeable(layers[i][k]),
    ensures
        forall|m: int| 0 <= m < p.links@.len() ==> (#[trigger] p.links@[m]).rel@ != rel,
{
    assert forall|m: int| 0 <= m < p.links@.len() implies (#[trigger] p.links@[m]).rel@ != rel by {
        if p.links@[m].rel@ == rel {
            let i = p.links@[m].layer as int;
            assert(wins(layers, rel, i));
            let k = choose|k: int|
                0 <= k < layers[i].len() && (#[trigger] layers[i][k]).rel == rel && mergeable(
                    layers[i][k],
                );
        }
    }
}

/// Law: determinism. The plan is a function of the layer stack and the base
/// flag alone: two plans matching the same input assign the same links, so
/// two runs over an unchanged layer set build identical merged trees.
pub proof fn lemma_plan_deterministic(
    p1: Plan,
    p2: Plan,
    skip_base: bool,
    layers: Seq<Seq<EntryModel>>,
)
    requires
        plan_matches(p1, skip_base, layers),
        plan_matches(p2, skip_base, layers),
    ensures
        p1.link_base == p2.link_base,
        forall|i: int, rel: Seq<u8>|
            #[trigger] plan_links(p1, i, rel) <==> #[trigger] plan_links(p2, i, rel),
{
    assert forall|i: int, rel: Seq<u8>|
        #[trigger] plan_links(p1, i, rel) <==> #[trigger] plan_links(p2, i, rel) by {
        if plan_links(p1, i, rel) {
            let m = choose|m: int|
                0 <= m < p1.links@.len() && (#[trigger] p1.links@[m]).layer as int == i
                    && p1.links@[m].rel@ == rel;
            assert(wins(layers, rel, i));
        }
        if plan_links(p2, i, rel) {
            let m = choose|m: int|
                0 <= m < p2.links@.len() && (#[trigger] p2.links@[m]).layer as int == i
                    && p2.links@[m].rel@ == rel;
            assert(wins(layers, rel, i));
        }
    }
}

/// Every layer that offers a path is preceded by one that wins it — possibly
/// itself.
proof fn lemma_offer_has_winner(layers: Seq<Seq<EntryModel>>, rel: Seq<u8>, i: int)
    requires
        0 <= i < layers.len(),
        offers(layers[i], rel),
    ensures
        exists|w: int| #[trigger] wins(layers, rel, w),
    decreases i,
{
    if forall|j: int| 0 <= j < i ==> !offers(#[trigger] layers[j], rel) {
        assert(wins(layers, rel, i));
    } else {
        let j = choose|j: int| 0 <= j < i && offers(#[trigger] layers[j], rel);
        lemma_offer_has_winner(layers, rel, j);
    }
}

/// Law: non-emptiness. The plan makes at least one link exactly when the
/// base file is linked or some layer holds a filtered-in file; with the
/// base file skipped and every file filtered out, nothing is planned and
/// the merged tree comes out empty.
pub proof fn lemma_nonempty(p: Plan, skip_base: bool, layers: Seq<Seq<EntryModel>>)
    requires
        plan_matches(p, skip_base, layers),
    ensures
        (p.link_base || p.links@.len() > 0) <==> (!skip_base || exists|i: int, k: int|
            0 <= i < layers.len() && 0 <= k < layers[i].len() && mergeable(
                #[trigger] layers[i][k],
            )),
{
    if p.links@.len() > 0 {
        let l = p.links@[0];
        assert(wins(layers, l.rel@, l.layer as int));
        let i = l.layer as int;
        let k = choose|k: int|
            0 <= k < layers[i].len() && (#[trigger] layers[i][k]).rel == l.rel@ && mergeable(
                layers[i][k],
            );
        assert(0 <= i < layers.len() && 0 <= k < layers[i].len() && mergeable(layers[i][k]));
    }
    if skip_base {
        if exists|i: int, k: int|
            0 <= i < layers.len() && 0 <= k < layers[i].len() && mergeable(
                #[trigger] layers[i][k],
            ) {
            let (i, k) = choose|i: int, k: int|
                0 <= i < layers.len() && 0 <= k < layers[i].len() && mergeable(
                    #[trigger] layers[i][k],
                );
            let rel = layers[i][k].rel;
            assert(offers(layers[i], rel));
            lemma_offer_has_winner(layers, rel, i);
            let w = choose|w: int| #[trigger] wins(layers, rel, w);
            assert(plan_links(p, w, rel));
            let m = choose|m: int|
                0 <= m < p.links@.len() && (#[trigger] p.links@[m]).layer as int == w
                    && p.links@[m].rel@ == rel;
        }
    }
}

} // verus!
