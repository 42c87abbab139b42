use crate::mapcss::parser::{properties_view, rules_view, selectors_view, Property, PropertyView, Rule, RuleView};
use crate::mapcss::styler::get_layer_id;
use crate::util::str_eq;
use vstd::prelude::*;

verus! {

/// Where a property of a layer comes from: the index of its rule and its index in the rule.
pub type PropRef = (usize, usize);

/// The properties of a layer, by name, each once.
pub type PropMap = Vec<(String, PropRef)>;

/// The layers of an object's style, by name, each once.
pub type LayerMaps = Vec<(String, PropMap)>;

/// A list of named entries as a map (a later entry of a name wins).
pub open spec fn assoc_view<V, W>(v: Seq<(String, V)>, f: spec_fn(V) -> W) -> Map<Seq<char>, W>
    decreases v.len(),
{
    if v.len() == 0 {
        Map::empty()
    } else {
        assoc_view(v.drop_last(), f).insert(v.last().0@, f(v.last().1))
    }
}

/// Whether no two entries have one name.
pub open spec fn keys_unique<V>(v: Seq<(String, V)>) -> bool {
    forall|i: int, j: int| 0 <= i < j < v.len() ==> (#[trigger] v[i]).0@ != (#[trigger] v[j]).0@
}

pub open spec fn prop_map_view(v: Seq<(String, PropRef)>) -> Map<Seq<char>, PropRef> {
    assoc_view(v, |x: PropRef| x)
}

pub open spec fn layers_view(v: Seq<(String, PropMap)>) -> Map<Seq<char>, Map<Seq<char>, PropRef>> {
    assoc_view(v, |m: PropMap| prop_map_view(m@))
}

proof fn lemma_assoc_view<V, W>(v: Seq<(String, V)>, f: spec_fn(V) -> W)
    requires
        keys_unique(v),
    ensures
        forall|k: Seq<char>| #[trigger] assoc_view(v, f).contains_key(k) <==> exists|i: int| 0 <= i < v.len() && v[i].0@ == k,
        forall|i: int| 0 <= i < v.len() ==> #[trigger] assoc_view(v, f)[v[i].0@] == f(v[i].1),
    decreases v.len(),
{
    if v.len() > 0 {
        let p = v.drop_last();
        assert(keys_unique(p)) by {
            assert forall|i: int, j: int| 0 <= i < j < p.len() implies (#[trigger] p[i]).0@ != (#[trigger] p[j]).0@ by {
                assert(p[i] == v[i] && p[j] == v[j]);
            }
        }
        lemma_assoc_view(p, f);
        assert forall|k: Seq<char>| #[trigger] assoc_view(v, f).contains_key(k) <==> exists|i: int|
            0 <= i < v.len() && v[i].0@ == k by {
            if assoc_view(p, f).contains_key(k) {
                let i = choose|i: int| 0 <= i < p.len() && p[i].0@ == k;
                assert(v[i] == p[i]);
            }
            if exists|i: int| 0 <= i < v.len() && v[i].0@ == k {
                let i = choose|i: int| 0 <= i < v.len() && v[i].0@ == k;
                if i < p.len() {
                    assert(p[i] == v[i]);
                }
            }
        }
        assert forall|i: int| 0 <= i < v.len() implies #[trigger] assoc_view(v, f)[v[i].0@] == f(v[i].1) by {
            assert(assoc_view(v, f) == assoc_view(p, f).insert(v.last().0@, f(v.last().1)));
            if i < p.len() {
                assert(p[i] == v[i]);
                assert(v[i].0@ != v[v.len() - 1].0@);
                assert(assoc_view(p, f)[p[i].0@] == f(p[i].1));
            }
        }
    }
}

proof fn lemma_assoc_update<V, W>(v: Seq<(String, V)>, f: spec_fn(V) -> W, i: int, e: (String, V))
    requires
        keys_unique(v),
        0 <= i < v.len(),
        e.0@ == v[i].0@,
    ensures
        keys_unique(v.update(i, e)),
        assoc_view(v.update(i, e), f) == assoc_view(v, f).insert(e.0@, f(e.1)),
{
    let u = v.update(i, e);
    assert(keys_unique(u)) by {
        assert forall|a: int, b: int| 0 <= a < b < u.len() implies (#[trigger] u[a]).0@ != (#[trigger] u[b]).0@ by {
            assert(u[a].0@ == v[a].0@ && u[b].0@ == v[b].0@);
        }
    }
    lemma_assoc_view(v, f);
    lemma_assoc_view(u, f);
    let m1 = assoc_view(u, f);
    let m2 = assoc_view(v, f).insert(e.0@, f(e.1));
    assert forall|k: Seq<char>| m1.contains_key(k) <==> m2.contains_key(k) by {
        if m1.contains_key(k) {
            let a = choose|a: int| 0 <= a < u.len() && u[a].0@ == k;
            assert(v[a].0@ == k);
        }
        if m2.contains_key(k) && k != e.0@ {
            let a = choose|a: int| 0 <= a < v.len() && v[a].0@ == k;
            assert(u[a].0@ == k);
        }
        if k == e.0@ {
            assert(u[i].0@ == k);
        }
    }
    assert forall|k: Seq<char>| #[trigger] m1.contains_key(k) implies m1[k] == m2[k] by {
        let a = choose|a: int| 0 <= a < u.len() && u[a].0@ == k;
        assert(m1[u[a].0@] == f(u[a].1));
        if a != i {
            assert(v[a] == u[a]);
            assert(assoc_view(v, f)[v[a].0@] == f(v[a].1));
        }
    }
    assert(m1 =~= m2);
}

proof fn lemma_assoc_push<V, W>(v: Seq<(String, V)>, f: spec_fn(V) -> W, e: (String, V))
    requires
        keys_unique(v),
        forall|i: int| 0 <= i < v.len() ==> v[i].0@ != e.0@,
    ensures
        keys_unique(v.push(e)),
        assoc_view(v.push(e), f) == assoc_view(v, f).insert(e.0@, f(e.1)),
{
    let u = v.push(e);
    assert(u.drop_last() =~= v);
    assert forall|a: int, b: int| 0 <= a < b < u.len() implies (#[trigger] u[a]).0@ != (#[trigger] u[b]).0@ by {
        if b < v.len() {
            assert(u[a] == v[a] && u[b] == v[b]);
        } else {
            assert(u[a] == v[a]);
        }
    }
}

/// The index of the entry named `k`, where there is one.
fn find_key<V>(v: &Vec<(String, V)>, k: &str) -> (res: Option<usize>)
    ensures
        match res {
            Some(i) => i < v@.len() && v@[i as int].0@ == k@,
            None => forall|i: int| 0 <= i < v@.len() ==> v@[i].0@ != k@,
        },
{
    let mut i: usize = 0;
    while i < v.len()
        invariant
            i <= v@.len(),
            forall|j: int| 0 <= j < i ==> v@[j].0@ != k@,
        decreases v@.len() - i,
    {
        if str_eq(v[i].0.as_str(), k) {
            return Some(i);
        }
        i = i + 1;
    }
    None
}

/// A copy of the properties of a layer.
fn copy_prop_map(m: &PropMap) -> (res: PropMap)
    ensures
        res@.len() == m@.len(),
        forall|i: int| 0 <= i < m@.len() ==> (#[trigger] res@[i]).0@ == m@[i].0@ && res@[i].1 == m@[i].1,
{
    let mut res: PropMap = Vec::new();
    let mut i: usize = 0;
    while i < m.len()
        invariant
            i <= m@.len(),
            res@.len() == i,
            forall|j: int| 0 <= j < i ==> (#[trigger] res@[j]).0@ == m@[j].0@ && res@[j].1 == m@[j].1,
        decreases m@.len() - i,
    {
        res.push((m[i].0.clone(), m[i].1));
        i = i + 1;
    }
    res
}

/// Copies whose entries have the same names and values have the same view.
proof fn lemma_same_entries_view(a: Seq<(String, PropRef)>, b: Seq<(String, PropRef)>)
    requires
        a.len() == b.len(),
        forall|i: int| 0 <= i < a.len() ==> (#[trigger] a[i]).0@ == b[i].0@ && a[i].1 == b[i].1,
    ensures
        prop_map_view(a) == prop_map_view(b),
        keys_unique(a) ==> keys_unique(b),
    decreases a.len(),
{
    if a.len() > 0 {
        lemma_same_entries_view(a.drop_last(), b.drop_last());
        assert(a.last().0@ == b.last().0@);
    }
    if keys_unique(a) {
        assert forall|i: int, j: int| 0 <= i < j < b.len() implies (#[trigger] b[i]).0@ != (#[trigger] b[j]).0@ by {
            assert(a[i].0@ != a[j].0@);
        }
    }
}

/// The properties of a layer once those of rule `r` are set on it, one after the other.
pub open spec fn apply_props(m: Map<Seq<char>, PropRef>, props: Seq<PropertyView>, r: int) -> Map<Seq<char>, PropRef>
    decreases props.len(),
{
    if props.len() == 0 {
        m
    } else {
        apply_props(m, props.drop_last(), r).insert(props.last().name, (r as usize, (props.len() - 1) as usize))
    }
}

/// Setting the properties of rule `r` on a layer: each name that the rule sets then refers to
/// rule `r`, at the last of its properties with that name (a later rule overrides what an
/// earlier one set); every other name keeps what it had.
pub proof fn lemma_apply_props_overrides(m: Map<Seq<char>, PropRef>, props: Seq<PropertyView>, r: int)
    requires
        0 <= r <= usize::MAX,
        props.len() <= usize::MAX,
    ensures
        forall|i: int|
            0 <= i < props.len() ==> apply_props(m, props, r).contains_key(#[trigger] props[i].name) && apply_props(
                m,
                props,
                r,
            )[props[i].name].0 == r,
        forall|i: int|
            0 <= i < props.len() && (forall|j: int| i < j < props.len() ==> props[j].name != props[i].name)
                ==> apply_props(m, props, r)[#[trigger] props[i].name].1 == i,
        forall|k: Seq<char>|
            (forall|i: int| 0 <= i < props.len() ==> props[i].name != k) ==> (#[trigger] apply_props(
                m,
                props,
                r,
            ).contains_key(k) == m.contains_key(k) && apply_props(m, props, r).get(k) == m.get(k)),
{
    assert forall|i: int| 0 <= i < props.len() implies apply_props(m, props, r).contains_key(
        #[trigger] props[i].name,
    ) && apply_props(m, props, r)[props[i].name].0 == r by {
        lemma_apply_sets(m, props, r, i);
    }
    assert forall|i: int|
        0 <= i < props.len() && (forall|j: int| i < j < props.len() ==> props[j].name != props[i].name)
            implies apply_props(m, props, r)[#[trigger] props[i].name].1 == i by {
        lemma_apply_last(m, props, r, i);
    }
    assert forall|k: Seq<char>| (forall|i: int| 0 <= i < props.len() ==> props[i].name != k) implies (
    #[trigger] apply_props(m, props, r).contains_key(k) == m.contains_key(k) && apply_props(m, props, r).get(k)
        == m.get(k)) by {
        lemma_apply_untouched(m, props, r, k);
    }
}

proof fn lemma_apply_sets(m: Map<Seq<char>, PropRef>, props: Seq<PropertyView>, r: int, i: int)
    requires
        0 <= r <= usize::MAX,
        props.len() <= usize::MAX,
        0 <= i < props.len(),
    ensures
        apply_props(m, props, r).contains_key(props[i].name),
        apply_props(m, props, r)[props[i].name].0 == r,
    decreases props.len(),
{
    if i < props.len() - 1 {
        let p = props.drop_last();
        lemma_apply_sets(m, p, r, i);
        assert(p[i] == props[i]);
    }
}

proof fn lemma_apply_last(m: Map<Seq<char>, PropRef>, props: Seq<PropertyView>, r: int, i: int)
    requires
        props.len() <= usize::MAX,
        0 <= i < props.len(),
        forall|j: int| i < j < props.len() ==> props[j].name != props[i].name,
    ensures
        apply_props(m, props, r)[props[i].name].1 == i,
    decreases props.len(),
{
    if i < props.len() - 1 {
        let p = props.drop_last();
        assert(props[props.len() - 1].name != props[i].name);
        assert forall|j: int| i < j < p.len() implies p[j].name != p[i].name by {
            assert(props[j].name != props[i].name);
        }
        lemma_apply_last(m, p, r, i);
        assert(p[i] == props[i]);
    }
}

proof fn lemma_apply_untouched(m: Map<Seq<char>, PropRef>, props: Seq<PropertyView>, r: int, k: Seq<char>)
    requires
        forall|i: int| 0 <= i < props.len() ==> props[i].name != k,
    ensures
        apply_props(m, props, r).contains_key(k) == m.contains_key(k),
        apply_props(m, props, r).get(k) == m.get(k),
    decreases props.len(),
{
    if props.len() > 0 {
        let p = props.drop_last();
        assert(props[props.len() - 1].name != k);
        assert forall|i: int| 0 <= i < p.len() implies p[i].name != k by {
            assert(props[i].name != k);
        }
        lemma_apply_untouched(m, p, r, k);
    }
}

/// A rule sets its properties on the layer of each of its selectors that matches: once the rule
/// has been cascaded, each name that it sets refers to it in that layer, whatever the rules
/// before it set.
pub proof fn lemma_later_rule_wins(rules: Seq<RuleView>, selected: Seq<Seq<bool>>, n: nat, s: int)
    requires
        1 <= n <= rules.len(),
        n <= usize::MAX,
        rules[n - 1].properties.len() <= usize::MAX,
        selected.len() == rules.len(),
        selected[n - 1].len() == rules[n - 1].selectors.len(),
        0 <= s < rules[n - 1].selectors.len(),
        selected[n - 1][s],
    ensures
        ({
            let layers = cascade(rules, selected, n);
            let l = layer_name(rules[n - 1].selectors[s].layer_id);
            let props = rules[n - 1].properties;
            layers.contains_key(l) && forall|i: int|
                0 <= i < props.len() ==> layers[l].contains_key(#[trigger] props[i].name) && layers[l][props[i].name].0
                    == n - 1
        }),
{
    let rule = rules[n - 1];
    lemma_rule_sets_layer(
        cascade(rules, selected, (n - 1) as nat),
        rule,
        n - 1,
        selected[n - 1],
        rule.selectors.len(),
        s,
    );
}

/// A rule that matches through a selector of layer `*` sets its properties on every layer:
/// once the rule has been cascaded, each name that it sets refers to it in each layer, those
/// made before it and those that its later selectors make.
pub proof fn lemma_star_rule_sets_every_layer(rules: Seq<RuleView>, selected: Seq<Seq<bool>>, n: nat, s: int)
    requires
        1 <= n <= rules.len(),
        n <= usize::MAX,
        rules[n - 1].properties.len() <= usize::MAX,
        selected.len() == rules.len(),
        selected[n - 1].len() == rules[n - 1].selectors.len(),
        0 <= s < rules[n - 1].selectors.len(),
        selected[n - 1][s],
        layer_name(rules[n - 1].selectors[s].layer_id) == "*"@,
    ensures
        forall|l: Seq<char>|
            #[trigger] cascade(rules, selected, n).contains_key(l) ==> layer_set_by(
                cascade(rules, selected, n),
                l,
                rules[n - 1].properties,
                n - 1,
            ),
{
    let rule = rules[n - 1];
    lemma_star_sets_all(cascade(rules, selected, (n - 1) as nat), rule, n - 1, selected[n - 1], rule.selectors.len(), s);
}

/// Whether each layer has each name that `props` sets referring to rule `r`.
pub open spec fn all_set_by(layers: Map<Seq<char>, Map<Seq<char>, PropRef>>, props: Seq<PropertyView>, r: int) -> bool {
    forall|l: Seq<char>| #[trigger] layers.contains_key(l) ==> layer_set_by(layers, l, props, r)
}

/// A selector step of rule `r` on layer `*`, or on layers all set by rule `r`, leaves them all
/// set by rule `r`.
proof fn lemma_step_all_set(
    layers: Map<Seq<char>, Map<Seq<char>, PropRef>>,
    layer: Seq<char>,
    props: Seq<PropertyView>,
    r: int,
)
    requires
        0 <= r <= usize::MAX,
        props.len() <= usize::MAX,
        layer == "*"@ || all_set_by(layers, props, r),
    ensures
        all_set_by(cascade_step(layers, layer, props, r), props, r),
{
    let base = if layers.contains_key(layer) {
        layers
    } else {
        layers.insert(
            layer,
            if layers.contains_key("*"@) {
                layers["*"@]
            } else {
                Map::empty()
            },
        )
    };
    let updated = base.insert(layer, apply_props(base[layer], props, r));
    let res = cascade_step(layers, layer, props, r);
    assert forall|l: Seq<char>| #[trigger] res.contains_key(l) implies layer_set_by(res, l, props, r) by {
        if l == layer {
            lemma_apply_props_overrides(base[layer], props, r);
        } else if layer == "*"@ {
            lemma_apply_props_overrides(updated[l], props, r);
        } else {
            assert(res[l] == layers[l]);
            assert(layer_set_by(layers, l, props, r));
        }
    }
}

/// Once selector `s` of rule `r`, of layer `*`, has matched, the selectors up to `k` leave every
/// layer set by rule `r`.
proof fn lemma_star_sets_all(
    layers: Map<Seq<char>, Map<Seq<char>, PropRef>>,
    rule: RuleView,
    r: int,
    sel: Seq<bool>,
    k: nat,
    s: int,
)
    requires
        0 <= r <= usize::MAX,
        rule.properties.len() <= usize::MAX,
        k <= sel.len(),
        k <= rule.selectors.len(),
        0 <= s < k,
        sel[s],
        layer_name(rule.selectors[s].layer_id) == "*"@,
    ensures
        all_set_by(cascade_rule(layers, rule, r, sel, k), rule.properties, r),
    decreases k,
{
    let prev = cascade_rule(layers, rule, r, sel, (k - 1) as nat);
    if s < k - 1 {
        lemma_star_sets_all(layers, rule, r, sel, (k - 1) as nat, s);
        if sel[k - 1] {
            lemma_step_all_set(prev, layer_name(rule.selectors[k - 1].layer_id), rule.properties, r);
        }
    } else {
        lemma_step_all_set(prev, "*"@, rule.properties, r);
    }
}

/// Whether layer `l` exists and each name that `props` sets refers to rule `r` in it.
pub open spec fn layer_set_by(layers: Map<Seq<char>, Map<Seq<char>, PropRef>>, l: Seq<char>, props: Seq<PropertyView>, r: int) -> bool {
    layers.contains_key(l) && forall|i: int|
        0 <= i < props.len() ==> layers[l].contains_key(#[trigger] props[i].name) && layers[l][props[i].name].0 == r
}

/// One selector step of rule `r` keeps a layer set by rule `r` so, and sets its own layer so.
proof fn lemma_step_keeps_set(
    layers: Map<Seq<char>, Map<Seq<char>, PropRef>>,
    layer: Seq<char>,
    props: Seq<PropertyView>,
    r: int,
    l: Seq<char>,
)
    requires
        0 <= r <= usize::MAX,
        props.len() <= usize::MAX,
    ensures
        layer_set_by(cascade_step(layers, layer, props, r), layer, props, r),
        layer_set_by(layers, l, props, r) ==> layer_set_by(cascade_step(layers, layer, props, r), l, props, r),
{
    let base = if layers.contains_key(layer) {
        layers
    } else {
        layers.insert(
            layer,
            if layers.contains_key("*"@) {
                layers["*"@]
            } else {
                Map::empty()
            },
        )
    };
    let updated = base.insert(layer, apply_props(base[layer], props, r));
    lemma_apply_props_overrides(base[layer], props, r);
    if layer_set_by(layers, l, props, r) && l != layer && layer == "*"@ {
        lemma_apply_props_overrides(updated[l], props, r);
    }
    if layer == "*"@ {
        assert(cascade_step(layers, layer, props, r)[layer] == updated[layer]);
    }
}

/// The selectors of rule `r` up to `k` keep the layer of a matching selector `s < k` set by it.
proof fn lemma_rule_sets_layer(
    layers: Map<Seq<char>, Map<Seq<char>, PropRef>>,
    rule: RuleView,
    r: int,
    sel: Seq<bool>,
    k: nat,
    s: int,
)
    requires
        0 <= r <= usize::MAX,
        rule.properties.len() <= usize::MAX,
        k <= sel.len(),
        k <= rule.selectors.len(),
        0 <= s < k,
        sel[s],
    ensures
        layer_set_by(
            cascade_rule(layers, rule, r, sel, k),
            layer_name(rule.selectors[s].layer_id),
            rule.properties,
            r,
        ),
    decreases k,
{
    let l = layer_name(rule.selectors[s].layer_id);
    let prev = cascade_rule(layers, rule, r, sel, (k - 1) as nat);
    if s < k - 1 {
        lemma_rule_sets_layer(layers, rule, r, sel, (k - 1) as nat, s);
        if sel[k - 1] {
            lemma_step_keeps_set(prev, layer_name(rule.selectors[k - 1].layer_id), rule.properties, r, l);
        }
    } else {
        lemma_step_keeps_set(prev, l, rule.properties, r, l);
    }
}

/// Sets the properties of rule `r` on a layer.
fn update_layer(m: &mut PropMap, props: &Vec<Property>, r: usize)
    requires
        keys_unique(old(m)@),
    ensures
        keys_unique(final(m)@),
        prop_map_view(final(m)@) == apply_props(prop_map_view(old(m)@), properties_view(props@), r as int),
{
    let ghost pv = properties_view(props@);
    let mut i: usize = 0;
    while i < props.len()
        invariant
            i <= props@.len(),
            pv == properties_view(props@),
            keys_unique(m@),
            prop_map_view(m@) == apply_props(prop_map_view(old(m)@), pv.take(i as int), r as int),
        decreases props@.len() - i,
    {
        let ghost before = m@;
        let name = &props[i].name;
        match find_key(m, name.as_str()) {
            Some(j) => {
                let e = (name.clone(), (r, i));
                proof {
                    lemma_assoc_update(before, |x: PropRef| x, j as int, e);
                }
                m.set(j, e);
            },
            None => {
                let e = (name.clone(), (r, i));
                proof {
                    lemma_assoc_push(before, |x: PropRef| x, e);
                }
                m.push(e);
            },
        }
        proof {
            let t = pv.take(i + 1);
            assert(t.drop_last() =~= pv.take(i as int));
            assert(t.last() == props@[i as int]@);
        }
        i = i + 1;
    }
    assert(pv.take(props@.len() as int) =~= pv);
}

/// The layer of a selector, in the spec: its own, or the default one.
pub open spec fn layer_name(layer_id: Option<Seq<char>>) -> Seq<char> {
    match layer_id {
        Some(id) => id,
        None => "default"@,
    }
}

/// The layers `updated` once the properties of rule `r` are also set on the layers among the
/// first `j` names of `keys`, but for layer `*`.
pub open spec fn star_target(
    updated: Map<Seq<char>, Map<Seq<char>, PropRef>>,
    keys: Seq<Seq<char>>,
    j: int,
    props: Seq<PropertyView>,
    r: int,
) -> Map<Seq<char>, Map<Seq<char>, PropRef>> {
    Map::new(
        |k: Seq<char>| updated.contains_key(k),
        |k: Seq<char>|
            if k != "*"@ && keys.take(j).contains(k) {
                apply_props(updated[k], props, r)
            } else {
                updated[k]
            },
    )
}

/// What one matching selector of rule `r` does to the layers: its layer is created where
/// missing, as a copy of layer `*` (or empty); the rule's properties are set on it; and where
/// it is layer `*`, they are set on every other layer too.
pub open spec fn cascade_step(
    layers: Map<Seq<char>, Map<Seq<char>, PropRef>>,
    layer: Seq<char>,
    props: Seq<PropertyView>,
    r: int,
) -> Map<Seq<char>, Map<Seq<char>, PropRef>> {
    let base = if layers.contains_key(layer) {
        layers
    } else {
        layers.insert(
            layer,
            if layers.contains_key("*"@) {
                layers["*"@]
            } else {
                Map::empty()
            },
        )
    };
    let updated = base.insert(layer, apply_props(base[layer], props, r));
    if layer == "*"@ {
        Map::new(
            |k: Seq<char>| updated.contains_key(k),
            |k: Seq<char>|
                if k == "*"@ {
                    updated[k]
                } else {
                    apply_props(updated[k], props, r)
                },
        )
    } else {
        updated
    }
}

/// The layers after the first `k` selectors of rule `r`, those that `sel` marks as matching.
pub open spec fn cascade_rule(
    layers: Map<Seq<char>, Map<Seq<char>, PropRef>>,
    rule: RuleView,
    r: int,
    sel: Seq<bool>,
    k: nat,
) -> Map<Seq<char>, Map<Seq<char>, PropRef>>
    decreases k,
{
    if k == 0 {
        layers
    } else {
        let l = cascade_rule(layers, rule, r, sel, (k - 1) as nat);
        if sel[k - 1] {
            cascade_step(l, layer_name(rule.selectors[k - 1].layer_id), rule.properties, r)
        } else {
            l
        }
    }
}

/// The layers of an object's style after the first `n` rules, where `selected[r][s]` tells
/// whether selector `s` of rule `r` matches the object.
pub open spec fn cascade(rules: Seq<RuleView>, selected: Seq<Seq<bool>>, n: nat) -> Map<
    Seq<char>,
    Map<Seq<char>, PropRef>,
>
    decreases n,
{
    if n == 0 {
        Map::empty()
    } else {
        cascade_rule(
            cascade(rules, selected, (n - 1) as nat),
            rules[n - 1],
            n - 1,
            selected[n - 1],
            rules[n - 1].selectors.len(),
        )
    }
}

pub open spec fn selected_view(v: Seq<Vec<bool>>) -> Seq<Seq<bool>> {
    v.map_values(|s: Vec<bool>| s@)
}

/// Applies one matching selector (see `cascade_step`).
fn apply_selector(layers: &mut LayerMaps, layer: &str, props: &Vec<Property>, r: usize)
    requires
        keys_unique(old(layers)@),
        forall|i: int| 0 <= i < old(layers)@.len() ==> keys_unique((#[trigger] old(layers)@[i]).1@),
    ensures
        keys_unique(final(layers)@),
        forall|i: int| 0 <= i < final(layers)@.len() ==> keys_unique((#[trigger] final(layers)@[i]).1@),
        layers_view(final(layers)@) == cascade_step(layers_view(old(layers)@), layer@, properties_view(props@), r as int),
{
    let ghost f = |m: PropMap| prop_map_view(m@);
    let ghost l0 = layers_view(layers@);
    proof {
        lemma_assoc_view(layers@, f);
    }
    let idx = match find_key(layers, layer) {
        Some(j) => j,
        None => {
            let parent = match find_key(layers, "*") {
                Some(s) => {
                    let c = copy_prop_map(&layers[s].1);
                    proof {
                        lemma_same_entries_view(layers@[s as int].1@, c@);
                        reveal_strlit("*");
                    }
                    c
                },
                None => {
                    let c: PropMap = Vec::new();
                    proof {
                        reveal_strlit("*");
                        assert(prop_map_view(c@) =~= Map::<Seq<char>, PropRef>::empty());
                    }
                    c
                },
            };
            let e = (layer.to_owned(), parent);
            let ghost before = layers@;
            proof {
                lemma_assoc_push(before, f, e);
            }
            layers.push(e);
            layers.len() - 1
        },
    };
    let ghost base = layers_view(layers@);
    assert(base == if l0.contains_key(layer@) {
        l0
    } else {
        l0.insert(
            layer@,
            if l0.contains_key("*"@) {
                l0["*"@]
            } else {
                Map::empty()
            },
        )
    }) by {
        if l0.contains_key(layer@) {
            assert(base == l0);
        }
    };
    proof {
        lemma_assoc_view(layers@, f);
    }
    let mut entry: (String, PropMap) = (String::new(), Vec::new());
    let ghost before = layers@;
    let key = layers[idx].0.clone();
    let mut m = copy_prop_map(&layers[idx].1);
    proof {
        lemma_same_entries_view(layers@[idx as int].1@, m@);
    }
    update_layer(&mut m, props, r);
    entry = (key, m);
    proof {
        lemma_assoc_update(before, f, idx as int, entry);
    }
    layers.set(idx, entry);
    let ghost updated = layers_view(layers@);
    let ghost after_set = layers@;
    let ghost keys = after_set.map_values(|e: (String, PropMap)| e.0@);
    if str_eq(layer, "*") {
        proof {
            lemma_assoc_view(layers@, f);
            assert(star_target(updated, keys, 0, properties_view(props@), r as int) =~= updated);
        }
        let mut j: usize = 0;
        while j < layers.len()
            invariant
                j <= layers@.len(),
                keys_unique(layers@),
                forall|i: int| 0 <= i < layers@.len() ==> keys_unique((#[trigger] layers@[i]).1@),
                layers@.len() == after_set.len(),
                keys.len() == after_set.len(),
                keys == after_set.map_values(|e: (String, PropMap)| e.0@),
                forall|i: int| 0 <= i < layers@.len() ==> (#[trigger] layers@[i]).0@ == keys[i],
                updated == layers_view(after_set),
                keys_unique(after_set),
                f == (|m: PropMap| prop_map_view(m@)),
                layers_view(layers@) == star_target(updated, keys, j as int, properties_view(props@), r as int),
            decreases layers@.len() - j,
        {
            let ghost cur = layers@;
            let ghost t0 = star_target(updated, keys, j as int, properties_view(props@), r as int);
            let ghost t1 = star_target(updated, keys, j + 1, properties_view(props@), r as int);
            proof {
                assert(keys.take(j + 1) =~= keys.take(j as int).push(keys[j as int]));
                assert forall|k: Seq<char>| keys.take(j + 1).contains(k) <==> (keys.take(j as int).contains(k) || k
                    == keys[j as int]) by {
                    if keys.take(j + 1).contains(k) {
                        let i = choose|i: int| 0 <= i < j + 1 && #[trigger] keys.take(j + 1)[i] == k;
                        if i < j {
                            assert(keys.take(j as int)[i] == k);
                        }
                    }
                    if keys.take(j as int).contains(k) {
                        let i = choose|i: int| 0 <= i < j && #[trigger] keys.take(j as int)[i] == k;
                        assert(keys.take(j + 1)[i] == k);
                    }
                    if k == keys[j as int] {
                        assert(keys.take(j + 1)[j as int] == k);
                    }
                }
                assert(!keys.take(j as int).contains(keys[j as int])) by {
                    if keys.take(j as int).contains(keys[j as int]) {
                        let i = choose|i: int| 0 <= i < j && #[trigger] keys.take(j as int)[i] == keys[j as int];
                        assert(cur[i].0@ == cur[j as int].0@);
                    }
                }
                lemma_assoc_view(after_set, f);
                assert(after_set[j as int].0@ == keys[j as int]);
                assert(updated.contains_key(keys[j as int]));
                lemma_assoc_view(cur, f);
            }
            let is_star = str_eq(layers[j].0.as_str(), "*");
            if !is_star {
                let key = layers[j].0.clone();
                let mut m = copy_prop_map(&layers[j].1);
                proof {
                    lemma_same_entries_view(layers@[j as int].1@, m@);
                }
                update_layer(&mut m, props, r);
                let e = (key, m);
                proof {
                    lemma_assoc_update(cur, f, j as int, e);
                    assert(prop_map_view(cur[j as int].1@) == t0[keys[j as int]]);
                    assert(layers_view(cur.update(j as int, e)) =~= t1);
                }
                layers.set(j, e);
            } else {
                assert(t0 =~= t1);
            }
            j = j + 1;
        }
        proof {
            lemma_assoc_view(after_set, f);
            assert(keys.take(keys.len() as int) =~= keys);
            assert forall|k: Seq<char>| #[trigger] updated.contains_key(k) implies keys.contains(k) by {
                let i = choose|i: int| 0 <= i < after_set.len() && after_set[i].0@ == k;
                assert(keys[i] == k);
            }
            assert(layers_view(layers@) =~= cascade_step(l0, layer@, properties_view(props@), r as int));
        }
    } else {
        assert(layer@ != "*"@);
    }
}

/// The layers of an object's style, where `selected[r][s]` tells whether selector `s` of rule
/// `r` matches the object: for each rule in order, for each matching selector in order, the
/// rule's properties are set on its layer (see `cascade_step`). A property names its rule and
/// its place in the rule.
pub fn style_layers(rules: &Vec<Rule>, selected: &Vec<Vec<bool>>) -> (res: LayerMaps)
    requires
        selected@.len() == rules@.len(),
        forall|r: int| 0 <= r < rules@.len() ==> (#[trigger] selected@[r])@.len() == rules@[r].selectors@.len(),
    ensures
        keys_unique(res@),
        layers_view(res@) == cascade(rules_view(rules@), selected_view(selected@), rules@.len()),
{
    let ghost rv = rules_view(rules@);
    let ghost sv = selected_view(selected@);
    let mut layers: LayerMaps = Vec::new();
    assert(layers_view(layers@) =~= Map::<Seq<char>, Map<Seq<char>, PropRef>>::empty());
    let mut r: usize = 0;
    while r < rules.len()
        invariant
            r <= rules@.len(),
            rv == rules_view(rules@),
            sv == selected_view(selected@),
            selected@.len() == rules@.len(),
            forall|q: int| 0 <= q < rules@.len() ==> (#[trigger] selected@[q])@.len() == rules@[q].selectors@.len(),
            keys_unique(layers@),
            forall|i: int| 0 <= i < layers@.len() ==> keys_unique((#[trigger] layers@[i]).1@),
            layers_view(layers@) == cascade(rv, sv, r as nat),
        decreases rules@.len() - r,
    {
        let rule = &rules[r];
        let sel = &selected[r];
        let ghost start = layers_view(layers@);
        let mut s: usize = 0;
        while s < rule.selectors.len()
            invariant
                s <= rule.selectors@.len(),
                r < rules@.len(),
                rule == rules@[r as int],
                sel == selected@[r as int],
                sel@.len() == rule.selectors@.len(),
                rv == rules_view(rules@),
                keys_unique(layers@),
                forall|i: int| 0 <= i < layers@.len() ==> keys_unique((#[trigger] layers@[i]).1@),
                layers_view(layers@) == cascade_rule(start, rv[r as int], r as int, sel@, s as nat),
            decreases rule.selectors@.len() - s,
        {
            if sel[s] {
                let layer = get_layer_id(&rule.selectors[s]);
                apply_selector(&mut layers, layer, &rule.properties, r);
                assert(rv[r as int].selectors[s as int] == rule.selectors@[s as int]@);
            }
            s = s + 1;
        }
        assert(sv[r as int] == sel@);
        r = r + 1;
    }
    layers
}

} // verus!
