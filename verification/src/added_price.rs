//! What the ingredients of an item are worth: for each item, the prices of
//! the items it is made from, added up.

use vstd::prelude::*;

verus! {

/// What an item holds, as values.
pub struct ItemModel {
    pub name: Seq<char>,
    pub level: u32,
    pub price: u32,
    pub time: u32,
    pub needs: Seq<Seq<char>>,
    pub source: Seq<char>,
    pub need_value: Option<u32>,
    pub time_per_value_bits: Option<u32>,
}

/// An item with its price, the items it is made from and, once computed,
/// the summed price of those (`need_value`). `time_per_value_bits` holds
/// the profit per hour that a caller may have computed for the item, as the
/// bits of an `f32` (`f32::to_bits`); it is carried through unchanged.
#[derive(Debug)]
pub struct Item {
    pub name: String,
    pub level: u32,
    pub price: u32,
    pub time: u32,
    pub needs: Vec<String>,
    pub source: String,
    pub need_value: Option<u32>,
    pub time_per_value_bits: Option<u32>,
}

impl View for Item {
    type V = ItemModel;

    open spec fn view(&self) -> ItemModel {
        ItemModel {
            name: self.name@,
            level: self.level,
            price: self.price,
            time: self.time,
            needs: self.needs.deep_view(),
            source: self.source@,
            need_value: self.need_value,
            time_per_value_bits: self.time_per_value_bits,
        }
    }
}

impl Item {
    /// An item with the given name, price, ingredients and time; its source
    /// is `IDK`, its level 0, and neither its ingredient value nor its profit
    /// per hour is computed yet.
    pub fn new(name: String, price: u32, needs: Vec<String>, time: u32) -> (res: Self)
        ensures
            res@ == (ItemModel {
                name: name@,
                level: 0,
                price,
                time,
                needs: needs.deep_view(),
                source: "IDK"@,
                need_value: None,
                time_per_value_bits: None,
            }),
    {
        Item {
            name,
            price,
            needs,
            time,
            source: "IDK".to_owned(),
            need_value: None,
            level: 0,
            time_per_value_bits: None,
        }
    }
}

/// The records of a list of items.
pub open spec fn models(items: Seq<Item>) -> Seq<ItemModel> {
    items.map_values(|it: Item| it@)
}

/// The items of a list keyed by name; where two share a name, the later
/// one stays.
pub open spec fn by_name(items: Seq<ItemModel>) -> Map<Seq<char>, ItemModel>
    decreases items.len(),
{
    if items.len() == 0 {
        Map::empty()
    } else {
        by_name(items.drop_last()).insert(items.last().name, items.last())
    }
}

/// No two items of a list share a name.
pub open spec fn distinct_names(items: Seq<ItemModel>) -> bool {
    forall|i: int, j: int| 0 <= i < j < items.len() ==> items[i].name != items[j].name
}

/// The price of the item called `name`, or 0 where there is none.
pub open spec fn price_of(items: Map<Seq<char>, ItemModel>, name: Seq<char>) -> nat {
    if items.contains_key(name) {
        items[name].price as nat
    } else {
        0
    }
}

/// The prices of the named items added up; a name that is no item counts 0,
/// and a name given twice counts twice.
pub open spec fn need_total(needs: Seq<Seq<char>>, items: Map<Seq<char>, ItemModel>) -> nat
    decreases needs.len(),
{
    if needs.len() == 0 {
        0
    } else {
        need_total(needs.drop_last(), items) + price_of(items, needs.last())
    }
}

/// An item with its ingredient value set from the prices in `items`.
pub open spec fn with_need_value(it: ItemModel, items: Map<Seq<char>, ItemModel>) -> ItemModel {
    ItemModel {
        name: it.name,
        level: it.level,
        price: it.price,
        time: it.time,
        needs: it.needs,
        source: it.source,
        need_value: Some(need_total(it.needs, items) as u32),
        time_per_value_bits: it.time_per_value_bits,
    }
}

/// The items keyed by name, each with its ingredient value.
pub open spec fn spec_added_value(items: Seq<ItemModel>) -> Map<Seq<char>, ItemModel> {
    let m = by_name(items);
    m.map_values(|it: ItemModel| with_need_value(it, m))
}

/// Every ingredient value fits in a `u32`.
pub open spec fn added_values_fit(items: Seq<ItemModel>) -> bool {
    let m = by_name(items);
    forall|k: Seq<char>| m.contains_key(k) ==> #[trigger] need_total(m[k].needs, m) <= u32::MAX
}

/// The ingredient value counts every ingredient: adding one more to the
/// list adds the price of the item of that name (0 where there is none),
/// whatever the length of the list.
pub proof fn lemma_need_total_push(
    needs: Seq<Seq<char>>,
    n: Seq<char>,
    items: Map<Seq<char>, ItemModel>,
)
    ensures
        need_total(needs.push(n), items) == need_total(needs, items) + if items.contains_key(n) {
            items[n].price as nat
        } else {
            0nat
        },
{
    assert(needs.push(n).drop_last() =~= needs);
}

/// The ingredient value of two lists one after the other is the sum of
/// their values, and an empty list is worth 0.
pub proof fn lemma_need_total_concat(
    a: Seq<Seq<char>>,
    b: Seq<Seq<char>>,
    items: Map<Seq<char>, ItemModel>,
)
    ensures
        need_total(a + b, items) == need_total(a, items) + need_total(b, items),
        need_total(Seq::empty(), items) == 0,
    decreases b.len(),
{
    if b.len() == 0 {
        assert(a + b =~= a);
    } else {
        lemma_need_total_concat(a, b.drop_last(), items);
        assert((a + b).drop_last() =~= a + b.drop_last());
        assert((a + b).last() == b.last());
    }
}

/// The ingredient value of a list of one name is the price of the item of
/// that name, or 0 where there is none.
pub proof fn lemma_need_total_single(n: Seq<char>, items: Map<Seq<char>, ItemModel>)
    ensures
        need_total(seq![n], items) == if items.contains_key(n) {
            items[n].price as nat
        } else {
            0nat
        },
{
    assert(seq![n].drop_last() =~= Seq::<Seq<char>>::empty());
    assert(seq![n].last() == n);
    assert(need_total(Seq::<Seq<char>>::empty(), items) == 0);
}

/// Keyed by name, an item is found under its name when no later item of
/// the list has that name.
pub proof fn lemma_by_name_last(items: Seq<ItemModel>, i: int)
    requires
        0 <= i < items.len(),
        forall|j: int| i < j < items.len() ==> #[trigger] items[j].name != items[i].name,
    ensures
        by_name(items).contains_key(items[i].name),
        by_name(items)[items[i].name] == items[i],
    decreases items.len(),
{
    if i < items.len() - 1 {
        let rest = items.drop_last();
        assert(rest[i] == items[i]);
        assert forall|j: int| i < j < rest.len() implies #[trigger] rest[j].name != rest[i].name by {
            assert(rest[j] == items[j]);
        }
        lemma_by_name_last(rest, i);
        assert(items.last().name != items[i].name);
    }
}

/// What `cal_added_value` gives for the item that stands under a name (the
/// last of the list with that name): the same item, with its ingredient
/// value set to the sum of the prices of all its ingredients.
pub proof fn lemma_added_value_of_item(items: Seq<ItemModel>, i: int)
    requires
        0 <= i < items.len(),
        forall|j: int| i < j < items.len() ==> #[trigger] items[j].name != items[i].name,
    ensures
        spec_added_value(items).contains_key(items[i].name),
        spec_added_value(items)[items[i].name].name == items[i].name,
        spec_added_value(items)[items[i].name].price == items[i].price,
        spec_added_value(items)[items[i].name].needs == items[i].needs,
        spec_added_value(items)[items[i].name].level == items[i].level,
        spec_added_value(items)[items[i].name].time == items[i].time,
        spec_added_value(items)[items[i].name].source == items[i].source,
        spec_added_value(items)[items[i].name].time_per_value_bits == items[i].time_per_value_bits,
        spec_added_value(items)[items[i].name].need_value == Some(
            need_total(items[i].needs, by_name(items)) as u32,
        ),
{
    lemma_by_name_last(items, i);
}

/// A name is a key exactly where some item of the list has it.
pub proof fn lemma_by_name_keys(items: Seq<ItemModel>)
    ensures
        forall|k: Seq<char>|
            by_name(items).contains_key(k) <==> exists|i: int|
                0 <= i < items.len() && #[trigger] items[i].name == k,
    decreases items.len(),
{
    if items.len() > 0 {
        let rest = items.drop_last();
        lemma_by_name_keys(rest);
        assert forall|k: Seq<char>|
            by_name(items).contains_key(k) implies exists|i: int|
                0 <= i < items.len() && #[trigger] items[i].name == k by {
            if k != items.last().name {
                assert(by_name(rest).contains_key(k));
                let i = choose|i: int| 0 <= i < rest.len() && #[trigger] rest[i].name == k;
                assert(items[i].name == k);
            } else {
                assert(items[items.len() - 1].name == k);
            }
        }
        assert forall|k: Seq<char>|
            (exists|i: int| 0 <= i < items.len() && #[trigger] items[i].name == k) implies by_name(
            items,
        ).contains_key(k) by {
            let i = choose|i: int| 0 <= i < items.len() && #[trigger] items[i].name == k;
            if i < items.len() - 1 {
                assert(rest[i].name == k);
                assert(by_name(rest).contains_key(k));
            } else {
                assert(items.last().name == k);
            }
        }
    }
}

/// Every item of the list, and nothing else, has an entry in the result of
/// `cal_added_value`: its keys are the names of the items.
pub proof fn lemma_added_value_keys(items: Seq<ItemModel>)
    ensures
        forall|k: Seq<char>|
            spec_added_value(items).contains_key(k) <==> exists|i: int|
                0 <= i < items.len() && #[trigger] items[i].name == k,
{
    lemma_by_name_keys(items);
}

/// Where names are distinct, each item is what its name is mapped to.
pub proof fn lemma_by_name_value(items: Seq<ItemModel>, i: int)
    requires
        distinct_names(items),
        0 <= i < items.len(),
    ensures
        by_name(items).contains_key(items[i].name),
        by_name(items)[items[i].name] == items[i],
    decreases items.len(),
{
    if i < items.len() - 1 {
        let rest = items.drop_last();
        assert(rest[i] == items[i]);
        lemma_by_name_value(rest, i);
    }
}

/// Putting an item in the place of the one with its name is inserting it.
proof fn lemma_by_name_update(items: Seq<ItemModel>, idx: int, it: ItemModel)
    requires
        distinct_names(items),
        0 <= idx < items.len(),
        items[idx].name == it.name,
    ensures
        distinct_names(items.update(idx, it)),
        by_name(items.update(idx, it)) == by_name(items).insert(it.name, it),
{
    let upd = items.update(idx, it);
    assert(distinct_names(upd));
    lemma_by_name_keys(items);
    lemma_by_name_keys(upd);
    let lhs = by_name(upd);
    let rhs = by_name(items).insert(it.name, it);
    assert forall|k: Seq<char>| lhs.contains_key(k) <==> rhs.contains_key(k) by {
        if lhs.contains_key(k) && k != it.name {
            let j = choose|j: int| 0 <= j < upd.len() && #[trigger] upd[j].name == k;
            assert(items[j].name == k);
        }
        if rhs.contains_key(k) && k != it.name {
            let j = choose|j: int| 0 <= j < items.len() && #[trigger] items[j].name == k;
            assert(upd[j].name == k);
        }
        if k == it.name {
            assert(upd[idx].name == k);
        }
    }
    assert forall|k: Seq<char>| lhs.contains_key(k) implies lhs[k] == rhs[k] by {
        let j = choose|j: int| 0 <= j < upd.len() && #[trigger] upd[j].name == k;
        lemma_by_name_value(upd, j);
        if k != it.name {
            lemma_by_name_value(items, j);
        } else {
            assert(j == idx);
        }
    }
    assert(lhs =~= rhs);
}

/// Items keyed by their names, at most one per name.
pub struct ItemMap {
    entries: Vec<Item>,
}

impl View for ItemMap {
    type V = Map<Seq<char>, ItemModel>;

    closed spec fn view(&self) -> Map<Seq<char>, ItemModel> {
        by_name(models(self.entries@))
    }
}

impl ItemMap {
    #[verifier::type_invariant]
    closed spec fn names_distinct(self) -> bool {
        distinct_names(models(self.entries@))
    }

    /// A map without items.
    pub fn new() -> (res: Self)
        ensures
            res@ == Map::<Seq<char>, ItemModel>::empty(),
    {
        ItemMap { entries: Vec::new() }
    }

    /// Where the item called `name` stands, if there is one.
    fn position(&self, name: &String) -> (res: Option<usize>)
        ensures
            match res {
                Some(i) => i < self.entries@.len() && self.entries@[i as int].name@ == name@,
                None => forall|i: int|
                    0 <= i < self.entries@.len() ==> self.entries@[i].name@ != name@,
            },
    {
        let n = self.entries.len();
        let mut i: usize = 0;
        while i < n
            invariant
                i <= n,
                n == self.entries@.len(),
                forall|j: int| 0 <= j < i ==> self.entries@[j].name@ != name@,
            decreases n - i,
        {
            if self.entries[i].name == *name {
                return Some(i);
            }
            i = i + 1;
        }
        None
    }

    /// The item called `name`, if there is one.
    pub fn get(&self, name: &str) -> (res: Option<&Item>)
        ensures
            match res {
                Some(it) => self@.contains_key(name@) && it@ == self@[name@],
                None => !self@.contains_key(name@),
            },
    {
        proof {
            use_type_invariant(self);
            lemma_by_name_keys(models(self.entries@));
        }
        let key = name.to_owned();
        match self.position(&key) {
            Some(i) => {
                proof {
                    lemma_by_name_value(models(self.entries@), i as int);
                }
                Some(&self.entries[i])
            },
            None => {
                assert forall|i: int| 0 <= i < self.entries@.len() implies #[trigger] models(
                    self.entries@,
                )[i].name != name@ by {}
                None
            },
        }
    }

    /// Puts `item` under its name, in the place of the item of that name
    /// where there is one.
    pub fn insert(&mut self, item: Item)
        ensures
            final(self)@ == old(self)@.insert(item.name@, item@),
    {
        proof {
            use_type_invariant(&*self);
        }
        let ghost it = item@;
        match self.position(&item.name) {
            Some(i) => {
                let ghost before = models(self.entries@);
                let mut entries: Vec<Item> = Vec::new();
                std::mem::swap(&mut entries, &mut self.entries);
                entries.set(i, item);
                proof {
                    assert(models(entries@) =~= before.update(i as int, it));
                    lemma_by_name_update(before, i as int, it);
                }
                self.entries = entries;
            },
            None => {
                let ghost before = models(self.entries@);
                let mut entries: Vec<Item> = Vec::new();
                std::mem::swap(&mut entries, &mut self.entries);
                entries.push(item);
                proof {
                    assert(models(entries@) =~= before.push(it));
                    assert(models(entries@).drop_last() =~= before);
                }
                self.entries = entries;
            },
        }
    }

    /// The items, one per name.
    pub fn into_items(self) -> (res: Vec<Item>)
        ensures
            distinct_names(models(res@)),
            by_name(models(res@)) == self@,
    {
        proof {
            use_type_invariant(&self);
        }
        self.entries
    }
}

/// The items of a list keyed by name; where two share a name, the later
/// one stays.
fn collect_items(items: Vec<Item>) -> (res: ItemMap)
    ensures
        res@ == by_name(models(items@)),
{
    let ghost orig = models(items@);
    let mut rest = items;
    let mut map = ItemMap::new();
    let ghost mut k: int = 0;
    assert(orig.take(0) =~= Seq::<ItemModel>::empty());
    assert(orig.skip(0) =~= orig);
    while rest.len() > 0
        invariant
            0 <= k <= orig.len(),
            models(rest@) == orig.skip(k),
            map@ == by_name(orig.take(k)),
        decreases rest.len(),
    {
        let ghost before = rest@;
        assert(models(rest@).len() == rest@.len());
        assert(k < orig.len());
        let it = rest.remove(0);
        assert(models(before) == orig.skip(k));
        assert(orig.skip(k)[0] == orig[k]);
        assert(models(before)[0] == it@);
        assert(orig[k] == it@);
        map.insert(it);
        proof {
            assert forall|j: int| 0 <= j < rest@.len() implies #[trigger] models(rest@)[j] == orig.skip(
                k + 1,
            )[j] by {
                assert(rest@[j] == before[j + 1]);
                assert(models(before)[j + 1] == orig.skip(k)[j + 1]);
            }
            assert(models(rest@) =~= orig.skip(k + 1));
            assert(orig.take(k + 1).drop_last() =~= orig.take(k));
            k = k + 1;
        }
    }
    assert(orig.take(k) =~= orig);
    map
}

/// The ingredient value of `needs` with the prices of `map`; `None` where it
/// does not fit in a `u32`.
fn need_sum(map: &ItemMap, needs: &Vec<String>) -> (res: Option<u32>)
    ensures
        need_total(needs.deep_view(), map@) <= u32::MAX ==> res == Some(
            need_total(needs.deep_view(), map@) as u32,
        ),
        need_total(needs.deep_view(), map@) > u32::MAX ==> res is None,
{
    let ghost names = needs.deep_view();
    let n = needs.len();
    let mut acc: u64 = 0;
    let mut i: usize = 0;
    assert(names.take(0) =~= Seq::<Seq<char>>::empty());
    while i < n
        invariant
            i <= n,
            n == needs@.len(),
            names == needs.deep_view(),
            acc == if need_total(names.take(i as int), map@) >= 0x1_0000_0000 {
                0x1_0000_0000
            } else {
                need_total(names.take(i as int), map@)
            },
        decreases n - i,
    {
        let price: u64 = match map.get(needs[i].as_str()) {
            Some(it) => it.price as u64,
            None => 0,
        };
        assert(names.take(i + 1).drop_last() =~= names.take(i as int));
        assert(names.take(i + 1).last() == needs@[i as int]@);
        if acc < 0x1_0000_0000 {
            acc = acc + price;
            if acc > 0x1_0000_0000 {
                acc = 0x1_0000_0000;
            }
        }
        i = i + 1;
    }
    assert(names.take(n as int) =~= names);
    if acc > 0xffff_ffff {
        None
    } else {
        Some(acc as u32)
    }
}

/// The ingredient value of every item of `map`, in the order of its
/// entries; `None` where one does not fit in a `u32`.
fn need_values(map: &ItemMap) -> (res: Option<Vec<u32>>)
    ensures
        res is Some <==> forall|k: Seq<char>|
            map@.contains_key(k) ==> #[trigger] need_total(map@[k].needs, map@) <= u32::MAX,
        res matches Some(sums) ==> sums@.len() == map.entries@.len() && forall|j: int|
            0 <= j < sums@.len() ==> sums@[j] == need_total(
                #[trigger] map.entries@[j]@.needs,
                map@,
            ),
{
    proof {
        use_type_invariant(map);
        lemma_by_name_keys(models(map.entries@));
    }
    let ghost em = models(map.entries@);
    let n = map.entries.len();
    let mut sums: Vec<u32> = Vec::new();
    let mut i: usize = 0;
    while i < n
        invariant
            i <= n,
            n == map.entries@.len(),
            em == models(map.entries@),
            distinct_names(em),
            sums@.len() == i,
            forall|j: int|
                0 <= j < i ==> sums@[j] == need_total(#[trigger] map.entries@[j]@.needs, map@),
            forall|j: int|
                0 <= j < i ==> need_total(#[trigger] map.entries@[j]@.needs, map@) <= u32::MAX,
        decreases n - i,
    {
        match need_sum(map, &map.entries[i].needs) {
            Some(v) => {
                sums.push(v);
            },
            None => {
                proof {
                    lemma_by_name_value(em, i as int);
                    assert(em[i as int] == map.entries@[i as int]@);
                    let k = em[i as int].name;
                    assert(map@.contains_key(k));
                    assert(map@[k].needs == map.entries@[i as int].needs.deep_view());
                    assert(!(need_total(map@[k].needs, map@) <= u32::MAX));
                }
                return None;
            },
        }
        i = i + 1;
    }
    assert forall|k: Seq<char>| map@.contains_key(k) implies #[trigger] need_total(
        map@[k].needs,
        map@,
    ) <= u32::MAX by {
        let j = choose|j: int| 0 <= j < em.len() && #[trigger] em[j].name == k;
        lemma_by_name_value(em, j);
        assert(em[j] == map.entries@[j]@);
    }
    Some(sums)
}

/// Every ingredient value of `map` fits exactly where it does for the list
/// the map was made from.
proof fn lemma_fit_of_map(items: Seq<ItemModel>, m: Map<Seq<char>, ItemModel>)
    requires
        m == by_name(items),
    ensures
        added_values_fit(items) <==> forall|k: Seq<char>|
            m.contains_key(k) ==> #[trigger] need_total(m[k].needs, m) <= u32::MAX,
{
}

/// The items of `em` with their ingredient values, keyed by name, are the
/// ingredient values of the map of `em`.
proof fn lemma_updated_entries(em: Seq<ItemModel>, out: Seq<ItemModel>)
    requires
        distinct_names(em),
        out.len() == em.len(),
        forall|j: int| 0 <= j < em.len() ==> #[trigger] out[j] == with_need_value(em[j], by_name(em)),
    ensures
        distinct_names(out),
        by_name(out) == by_name(em).map_values(|it: ItemModel| with_need_value(it, by_name(em))),
{
    let m = by_name(em);
    let target = m.map_values(|it: ItemModel| with_need_value(it, m));
    assert(forall|j: int| 0 <= j < em.len() ==> #[trigger] out[j].name == em[j].name);
    assert(distinct_names(out));
    lemma_by_name_keys(em);
    lemma_by_name_keys(out);
    assert forall|k: Seq<char>| by_name(out).contains_key(k) <==> target.contains_key(k) by {
        if by_name(out).contains_key(k) {
            let j = choose|j: int| 0 <= j < out.len() && #[trigger] out[j].name == k;
            assert(em[j].name == k);
        }
        if target.contains_key(k) {
            let j = choose|j: int| 0 <= j < em.len() && #[trigger] em[j].name == k;
            assert(out[j].name == k);
        }
    }
    assert forall|k: Seq<char>| by_name(out).contains_key(k) implies by_name(out)[k] == target[k] by {
        let j = choose|j: int| 0 <= j < out.len() && #[trigger] out[j].name == k;
        lemma_by_name_value(out, j);
        lemma_by_name_value(em, j);
    }
    assert(by_name(out) =~= target);
}

/// The items keyed by name, each with its ingredient value: the prices of
/// the items it is made from, added up, where a name that is no item
/// counts 0 and a name given twice counts twice. Where two items share a
/// name, the later one stands for both. `None` where an ingredient value
/// does not fit in a `u32`.
pub fn cal_added_value_checked(items: Vec<Item>) -> (res: Option<ItemMap>)
    ensures
        res is Some <==> added_values_fit(models(items@)),
        res matches Some(m) ==> m@ == spec_added_value(models(items@)),
{
    let ghost im = models(items@);
    let base = collect_items(items);
    proof {
        use_type_invariant(&base);
        lemma_fit_of_map(im, base@);
    }
    let sums = match need_values(&base) {
        Some(s) => s,
        None => {
            return None;
        },
    };
    let ghost em = models(base.entries@);
    let ghost bv = base@;
    let n = base.entries.len();
    let mut entries = base.entries;
    let mut i: usize = 0;
    while i < n
        invariant
            i <= n,
            n == entries@.len(),
            em.len() == n,
            sums@.len() == n,
            bv == by_name(em),
            forall|j: int| 0 <= j < n ==> sums@[j] == need_total(#[trigger] em[j].needs, bv),
            forall|j: int|
                0 <= j < i ==> #[trigger] entries@[j]@ == with_need_value(em[j], bv),
            forall|j: int| i <= j < n ==> #[trigger] entries@[j]@ == em[j],
        decreases n - i,
    {
        let ghost old_entries = entries@;
        assert(old_entries[i as int]@ == em[i as int]);
        assert(sums@[i as int] == need_total(em[i as int].needs, bv));
        entries[i].need_value = Some(sums[i]);
        assert(entries@[i as int]@ == with_need_value(em[i as int], bv));
        i = i + 1;
    }
    proof {
        lemma_updated_entries(em, models(entries@));
    }
    Some(ItemMap { entries })
}

/// `cal_added_value_checked` where every ingredient value fits in a `u32`.
pub fn cal_added_value(items: Vec<Item>) -> (res: ItemMap)
    requires
        added_values_fit(models(items@)),
    ensures
        res@ == spec_added_value(models(items@)),
{
    match cal_added_value_checked(items) {
        Some(m) => m,
        None => {
            assert(false);
            ItemMap::new()
        },
    }
}

/// What `cal_added_value` gives, built up one item at a time into a new
/// map.
pub fn cal_added_value_2(items: Vec<Item>) -> (res: ItemMap)
    requires
        added_values_fit(models(items@)),
    ensures
        res@ == spec_added_value(models(items@)),
{
    let ghost im = models(items@);
    let base = collect_items(items);
    proof {
        use_type_invariant(&base);
        lemma_fit_of_map(im, base@);
    }
    let sums = match need_values(&base) {
        Some(s) => s,
        None => {
            assert(false);
            return ItemMap::new();
        },
    };
    let ghost em = models(base.entries@);
    let ghost bv = base@;
    let ghost n = em.len();
    let mut entries = base.entries;
    let mut acc = ItemMap::new();
    while entries.len() > 0
        invariant
            entries@.len() <= n,
            n == em.len(),
            sums@.len() == n,
            distinct_names(em),
            bv == by_name(em),
            forall|j: int| 0 <= j < entries@.len() ==> #[trigger] entries@[j]@ == em[j],
            forall|j: int| 0 <= j < n ==> sums@[j] == need_total(#[trigger] em[j].needs, bv),
            forall|k: Seq<char>|
                acc@.contains_key(k) <==> exists|j: int|
                    entries@.len() <= j < n && #[trigger] em[j].name == k,
            forall|j: int|
                entries@.len() <= j < n ==> acc@[#[trigger] em[j].name] == with_need_value(
                    em[j],
                    bv,
                ),
        decreases entries@.len(),
    {
        let ghost r = entries@.len() - 1;
        assert(entries@[r]@ == em[r]);
        let mut it = match entries.pop() {
            Some(x) => x,
            None => {
                assert(false);
                return ItemMap::new();
            },
        };
        let i = entries.len();
        assert(sums@[r] == need_total(em[r].needs, bv));
        it.need_value = Some(sums[i]);
        assert(it@ == with_need_value(em[r], bv));
        let ghost prev = acc@;
        acc.insert(it);
        assert forall|k: Seq<char>|
            acc@.contains_key(k) implies exists|j: int|
                entries@.len() <= j < n && #[trigger] em[j].name == k by {
            if k != em[r].name {
                assert(prev.contains_key(k));
            }
        }
        assert forall|j: int| entries@.len() <= j < n implies acc@[#[trigger] em[j].name]
            == with_need_value(em[j], bv) by {
            if j != r {
                assert(em[j].name != em[r].name);
            }
        }
    }
    proof {
        lemma_by_name_keys(em);
        let target = bv.map_values(|it: ItemModel| with_need_value(it, bv));
        assert forall|k: Seq<char>| acc@.contains_key(k) <==> target.contains_key(k) by {
            if target.contains_key(k) {
                let j = choose|j: int| 0 <= j < em.len() && #[trigger] em[j].name == k;
            }
        }
        assert forall|k: Seq<char>| acc@.contains_key(k) implies acc@[k] == target[k] by {
            let j = choose|j: int| 0 <= j < n && #[trigger] em[j].name == k;
            lemma_by_name_value(em, j);
        }
        assert(acc@ =~= target);
    }
    acc
}

} // verus!
