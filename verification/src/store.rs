//! The ordered store that backs every repository: a vector of contacts kept
//! strictly sorted by name. Insertion is an upsert (replace on equal name),
//! lookup and removal are by name, and listing pages through the sorted
//! sequence. The spec functions here are the model that every backend's
//! contract speaks of.

use vstd::prelude::*;

use crate::models::contact::{Contact, ContactView};
use crate::ordering::{
    lemma_lex_lt_asymmetric, lemma_lex_lt_connected, lemma_lex_lt_irreflexive,
    lemma_lex_lt_transitive, lex_lt, str_eq, str_lt,
};

verus! {

/// The views of a sequence of stored contacts.
pub open spec fn contact_views(s: Seq<Contact>) -> Seq<ContactView> {
    s.map_values(|c: Contact| c@)
}

/// The view of an optional contact.
pub open spec fn opt_view(o: Option<Contact>) -> Option<ContactView> {
    match o {
        Some(c) => Some(c@),
        None => None,
    }
}

/// Strictly ascending by name: the store's ordering invariant. It implies
/// that names are unique.
pub open spec fn sorted_by_name(s: Seq<ContactView>) -> bool {
    forall|i: int, j: int| 0 <= i < j < s.len() ==> lex_lt(s[i].name, s[j].name)
}

/// Insert-or-replace by name, keeping ascending order.
pub open spec fn upsert(s: Seq<ContactView>, c: ContactView) -> Seq<ContactView>
    decreases s.len(),
{
    if s.len() == 0 {
        seq![c]
    } else if lex_lt(c.name, s[0].name) {
        seq![c] + s
    } else if c.name == s[0].name {
        seq![c] + s.drop_first()
    } else {
        seq![s[0]] + upsert(s.drop_first(), c)
    }
}

/// The stored contact with the given name, if any.
pub open spec fn lookup(s: Seq<ContactView>, name: Seq<char>) -> Option<ContactView>
    decreases s.len(),
{
    if s.len() == 0 {
        None
    } else if s[0].name == name {
        Some(s[0])
    } else {
        lookup(s.drop_first(), name)
    }
}

/// The sequence without the first contact of the given name, if one is there.
pub open spec fn remove_name(s: Seq<ContactView>, name: Seq<char>) -> Seq<ContactView>
    decreases s.len(),
{
    if s.len() == 0 {
        s
    } else if s[0].name == name {
        s.drop_first()
    } else {
        seq![s[0]] + remove_name(s.drop_first(), name)
    }
}

/// All the items upserted into the store in order: the model of a bulk import.
pub open spec fn upsert_all(s: Seq<ContactView>, items: Seq<ContactView>) -> Seq<ContactView>
    decreases items.len(),
{
    if items.len() == 0 {
        s
    } else {
        upsert_all(upsert(s, items[0]), items.drop_first())
    }
}

/// The page of the sorted sequence at the given zero-based index: skip
/// `page_no * page_size` entries, take the next `page_size`. A zero page
/// size, or a page beyond the end, is empty.
pub open spec fn page(s: Seq<ContactView>, page_no: int, page_size: int) -> Seq<ContactView> {
    let start = page_no * page_size;
    if page_size <= 0 || start >= s.len() {
        Seq::empty()
    } else if start + page_size <= s.len() {
        s.subrange(start, start + page_size)
    } else {
        s.subrange(start, s.len() as int)
    }
}

/// The position where `name` would stand: everything before it is strictly
/// below `name`, and the entry at it (if any) is not.
pub open spec fn boundary_at(s: Seq<ContactView>, name: Seq<char>, i: int) -> bool {
    &&& 0 <= i <= s.len()
    &&& forall|j: int| 0 <= j < i ==> lex_lt(s[j].name, name)
    &&& (i < s.len() ==> !lex_lt(s[i].name, name))
}

/// A sequence in which no entry carries `name` looks it up as absent.
proof fn lemma_lookup_absent(s: Seq<ContactView>, name: Seq<char>)
    requires
        forall|j: int| 0 <= j < s.len() ==> s[j].name != name,
    ensures
        lookup(s, name) is None,
    decreases s.len(),
{
    if s.len() > 0 {
        assert(forall|j: int|
            0 <= j < s.drop_first().len() ==> s.drop_first()[j] == s[j + 1]);
        lemma_lookup_absent(s.drop_first(), name);
    }
}

/// Removing an absent name changes nothing.
proof fn lemma_remove_absent(s: Seq<ContactView>, name: Seq<char>)
    requires
        forall|j: int| 0 <= j < s.len() ==> s[j].name != name,
    ensures
        remove_name(s, name) == s,
    decreases s.len(),
{
    if s.len() > 0 {
        assert(forall|j: int|
            0 <= j < s.drop_first().len() ==> s.drop_first()[j] == s[j + 1]);
        lemma_remove_absent(s.drop_first(), name);
        assert(seq![s[0]] + s.drop_first() =~= s);
    }
}

/// In a sorted sequence, everything after a boundary position for `name`
/// sorts strictly above `name`, so `name` occurs nowhere beyond it.
proof fn lemma_beyond_boundary(s: Seq<ContactView>, name: Seq<char>, i: int)
    requires
        sorted_by_name(s),
        boundary_at(s, name, i),
        i < s.len(),
        s[i].name != name,
    ensures
        forall|j: int| i <= j < s.len() ==> lex_lt(name, #[trigger] s[j].name),
{
    lemma_lex_lt_connected(s[i].name, name);
    assert forall|j: int| i <= j < s.len() implies lex_lt(name, #[trigger] s[j].name) by {
        if j > i {
            lemma_lex_lt_transitive(name, s[i].name, s[j].name);
        }
    }
}

/// The tail of a sorted sequence is sorted.
proof fn lemma_sorted_drop_first(s: Seq<ContactView>)
    requires
        sorted_by_name(s),
        s.len() > 0,
    ensures
        sorted_by_name(s.drop_first()),
{
    assert forall|i: int, j: int|
        0 <= i < j < s.drop_first().len() implies lex_lt(
        s.drop_first()[i].name,
        s.drop_first()[j].name,
    ) by {
        assert(s.drop_first()[i] == s[i + 1]);
        assert(s.drop_first()[j] == s[j + 1]);
    }
}

/// At a boundary position, lookup is decided by the entry standing there.
proof fn lemma_lookup_at(s: Seq<ContactView>, name: Seq<char>, i: int)
    requires
        sorted_by_name(s),
        boundary_at(s, name, i),
    ensures
        lookup(s, name) == if i < s.len() && s[i].name == name {
            Some(s[i])
        } else {
            None::<ContactView>
        },
    decreases s.len(),
{
    if s.len() == 0 {
    } else if i == 0 {
        if s[0].name == name {
        } else {
            lemma_beyond_boundary(s, name, 0);
            assert forall|j: int| 0 <= j < s.len() implies s[j].name != name by {
                if s[j].name == name {
                    lemma_lex_lt_irreflexive(name);
                }
            }
            lemma_lookup_absent(s, name);
        }
    } else {
        assert(lex_lt(s[0].name, name));
        lemma_lex_lt_irreflexive(name);
        assert(s[0].name != name);
        lemma_sorted_drop_first(s);
        assert(forall|j: int|
            0 <= j < s.drop_first().len() ==> s.drop_first()[j] == s[j + 1]);
        lemma_lookup_at(s.drop_first(), name, i - 1);
    }
}

/// At a boundary position, the upsert is an update on an equal name and a
/// plain insertion otherwise.
proof fn lemma_upsert_at(s: Seq<ContactView>, c: ContactView, i: int)
    requires
        sorted_by_name(s),
        boundary_at(s, c.name, i),
    ensures
        upsert(s, c) == if i < s.len() && s[i].name == c.name {
            s.update(i, c)
        } else {
            s.insert(i, c)
        },
    decreases s.len(),
{
    if s.len() == 0 {
        assert(upsert(s, c) =~= s.insert(0, c));
    } else if i == 0 {
        if s[0].name == c.name {
            lemma_lex_lt_irreflexive(c.name);
            assert(seq![c] + s.drop_first() =~= s.update(0, c));
        } else {
            lemma_lex_lt_connected(c.name, s[0].name);
            assert(lex_lt(c.name, s[0].name));
            assert(seq![c] + s =~= s.insert(0, c));
        }
    } else {
        assert(lex_lt(s[0].name, c.name));
        lemma_lex_lt_asymmetric(s[0].name, c.name);
        lemma_lex_lt_irreflexive(c.name);
        assert(!(c.name == s[0].name));
        lemma_sorted_drop_first(s);
        assert(forall|j: int|
            0 <= j < s.drop_first().len() ==> s.drop_first()[j] == s[j + 1]);
        lemma_upsert_at(s.drop_first(), c, i - 1);
        if i < s.len() && s[i].name == c.name {
            assert(seq![s[0]] + s.drop_first().update(i - 1, c) =~= s.update(i, c));
        } else {
            s.drop_first().insert_ensures(i - 1, c);
            s.insert_ensures(i, c);
            assert(seq![s[0]] + s.drop_first().insert(i - 1, c) =~= s.insert(i, c));
        }
    }
}

/// At a boundary position, removal deletes the entry standing there on an
/// equal name and is the identity otherwise.
proof fn lemma_remove_at(s: Seq<ContactView>, name: Seq<char>, i: int)
    requires
        sorted_by_name(s),
        boundary_at(s, name, i),
    ensures
        remove_name(s, name) == if i < s.len() && s[i].name == name {
            s.remove(i)
        } else {
            s
        },
    decreases s.len(),
{
    if s.len() == 0 {
    } else if i == 0 {
        if s[0].name == name {
            assert(s.drop_first() =~= s.remove(0));
        } else {
            lemma_beyond_boundary(s, name, 0);
            assert forall|j: int| 0 <= j < s.len() implies s[j].name != name by {
                if s[j].name == name {
                    lemma_lex_lt_irreflexive(name);
                }
            }
            lemma_remove_absent(s, name);
        }
    } else {
        assert(lex_lt(s[0].name, name));
        lemma_lex_lt_irreflexive(name);
        assert(s[0].name != name);
        lemma_sorted_drop_first(s);
        assert(forall|j: int|
            0 <= j < s.drop_first().len() ==> s.drop_first()[j] == s[j + 1]);
        lemma_remove_at(s.drop_first(), name, i - 1);
        if i < s.len() && s[i].name == name {
            s.drop_first().remove_ensures(i - 1);
            s.remove_ensures(i);
            assert(seq![s[0]] + s.drop_first().remove(i - 1) =~= s.remove(i));
        } else {
            assert(seq![s[0]] + s.drop_first() =~= s);
        }
    }
}

/// An update at a boundary position with an equal name keeps the order.
proof fn lemma_sorted_update(s: Seq<ContactView>, c: ContactView, i: int)
    requires
        sorted_by_name(s),
        boundary_at(s, c.name, i),
        i < s.len(),
        s[i].name == c.name,
    ensures
        sorted_by_name(s.update(i, c)),
{
    let t = s.update(i, c);
    assert forall|a: int, b: int| 0 <= a < b < t.len() implies lex_lt(t[a].name, t[b].name) by {
        if a == i {
            assert(lex_lt(s[i].name, s[b].name));
        } else if b == i {
            assert(lex_lt(s[a].name, s[i].name));
        }
    }
}

/// Removing any entry of a sorted sequence keeps the order.
proof fn lemma_sorted_remove(s: Seq<ContactView>, i: int)
    requires
        sorted_by_name(s),
        0 <= i < s.len(),
    ensures
        sorted_by_name(s.remove(i)),
{
    let t = s.remove(i);
    s.remove_ensures(i);
    assert forall|a: int, b: int| 0 <= a < b < t.len() implies lex_lt(t[a].name, t[b].name) by {
        let a0 = if a < i {
            a
        } else {
            a + 1
        };
        let b0 = if b < i {
            b
        } else {
            b + 1
        };
        assert(t[a] == s[a0]);
        assert(t[b] == s[b0]);
    }
}

/// An insertion at a boundary position of an absent name keeps the order.
proof fn lemma_sorted_insert(s: Seq<ContactView>, c: ContactView, i: int)
    requires
        sorted_by_name(s),
        boundary_at(s, c.name, i),
        i < s.len() ==> s[i].name != c.name,
    ensures
        sorted_by_name(s.insert(i, c)),
{
    let t = s.insert(i, c);
    s.insert_ensures(i, c);
    if i < s.len() {
        lemma_lex_lt_connected(c.name, s[i].name);
    }
    assert forall|a: int, b: int| 0 <= a < b < t.len() implies lex_lt(t[a].name, t[b].name) by {
        if a < i && b < i {
        } else if a == i && b > i {
            assert(t[b] == s[b - 1]);
            if b - 1 > i {
                lemma_lex_lt_transitive(c.name, s[i].name, s[b - 1].name);
            }
        } else if a < i && b == i {
        } else if a < i && b > i {
            assert(t[b] == s[b - 1]);
            if b - 1 == i {
            } else {
                assert(lex_lt(s[a].name, s[b - 1].name));
            }
        } else if a > i {
            assert(t[a] == s[a - 1]);
            assert(t[b] == s[b - 1]);
        }
    }
}

/// Every name has a boundary position in a sorted sequence.
proof fn lemma_boundary_exists(s: Seq<ContactView>, name: Seq<char>)
    requires
        sorted_by_name(s),
    ensures
        exists|i: int| boundary_at(s, name, i),
    decreases s.len(),
{
    if s.len() == 0 {
        assert(boundary_at(s, name, 0));
    } else if !lex_lt(s[0].name, name) {
        assert(boundary_at(s, name, 0));
    } else {
        lemma_sorted_drop_first(s);
        lemma_boundary_exists(s.drop_first(), name);
        let i = choose|i: int| boundary_at(s.drop_first(), name, i);
        assert forall|j: int| 0 <= j < i + 1 implies lex_lt(s[j].name, name) by {
            if j > 0 {
                assert(lex_lt(s.drop_first()[j - 1].name, name));
                assert(s.drop_first()[j - 1] == s[j]);
            }
        }
        if i + 1 < s.len() {
            assert(s.drop_first()[i] == s[i + 1]);
        }
        assert(boundary_at(s, name, i + 1));
    }
}

/// Finds the boundary position for `name`: the index of the first entry that
/// does not sort strictly below it.
pub fn store_find(v: &Vec<Contact>, name: &str) -> (i: usize)
    requires
        sorted_by_name(contact_views(v@)),
    ensures
        boundary_at(contact_views(v@), name@, i as int),
{
    let ghost s = contact_views(v@);
    let mut i: usize = 0;
    while i < v.len() && str_lt(v[i].name.as_str(), name)
        invariant
            s == contact_views(v@),
            i <= v@.len(),
            forall|j: int| 0 <= j < i ==> lex_lt(s[j].name, name@),
        decreases v@.len() - i,
    {
        i = i + 1;
    }
    i
}

/// Insert-or-replace: afterwards the store holds `c` under its name, every
/// other entry is unchanged, and the order is kept.
pub fn store_upsert(v: &mut Vec<Contact>, c: Contact)
    requires
        sorted_by_name(contact_views(old(v)@)),
    ensures
        contact_views(final(v)@) == upsert(contact_views(old(v)@), c@),
        sorted_by_name(contact_views(final(v)@)),
{
    let ghost s = contact_views(v@);
    let ghost vs0 = v@;
    let i = store_find(v, c.name.as_str());
    if i < v.len() && str_eq(v[i].name.as_str(), c.name.as_str()) {
        proof {
            lemma_upsert_at(s, c@, i as int);
            lemma_sorted_update(s, c@, i as int);
        }
        v.set(i, c);
        proof {
            assert(contact_views(v@) =~= s.update(i as int, c@));
        }
    } else {
        proof {
            lemma_upsert_at(s, c@, i as int);
            lemma_sorted_insert(s, c@, i as int);
        }
        v.insert(i, c);
        proof {
            vs0.insert_ensures(i as int, c);
            s.insert_ensures(i as int, c@);
            assert(contact_views(v@) =~= s.insert(i as int, c@));
        }
    }
}

/// Looks a name up; the returned copy is exactly the stored record.
pub fn store_lookup(v: &Vec<Contact>, name: &str) -> (r: Option<Contact>)
    requires
        sorted_by_name(contact_views(v@)),
    ensures
        opt_view(r) == lookup(contact_views(v@), name@),
{
    let ghost s = contact_views(v@);
    let i = store_find(v, name);
    proof {
        lemma_lookup_at(s, name@, i as int);
    }
    if i < v.len() && str_eq(v[i].name.as_str(), name) {
        Some(v[i].clone())
    } else {
        None
    }
}

/// Removes a name if present, returning the prior record; removing an absent
/// name changes nothing and returns nothing.
pub fn store_remove(v: &mut Vec<Contact>, name: &str) -> (r: Option<Contact>)
    requires
        sorted_by_name(contact_views(old(v)@)),
    ensures
        contact_views(final(v)@) == remove_name(contact_views(old(v)@), name@),
        opt_view(r) == lookup(contact_views(old(v)@), name@),
        sorted_by_name(contact_views(final(v)@)),
{
    let ghost s = contact_views(v@);
    let ghost vs0 = v@;
    let i = store_find(v, name);
    proof {
        lemma_lookup_at(s, name@, i as int);
        lemma_remove_at(s, name@, i as int);
    }
    if i < v.len() && str_eq(v[i].name.as_str(), name) {
        let c = v.remove(i);
        proof {
            lemma_sorted_remove(s, i as int);
            vs0.remove_ensures(i as int);
            s.remove_ensures(i as int);
            assert(contact_views(v@) =~= s.remove(i as int));
        }
        Some(c)
    } else {
        None
    }
}

/// Copies out the requested page of the store.
pub fn store_page(v: &Vec<Contact>, page_no: usize, page_size: usize) -> (r: Vec<Contact>)
    ensures
        contact_views(r@) == page(contact_views(v@), page_no as int, page_size as int),
{
    let ghost s = contact_views(v@);
    proof {
        lemma_views_len(v@);
    }
    let mut out: Vec<Contact> = Vec::new();
    if page_size == 0 {
        proof {
            lemma_views_len(out@);
            assert(contact_views(out@) =~= page(s, page_no as int, page_size as int));
        }
        return out;
    }
    let n = v.len();
    let start = match page_no.checked_mul(page_size) {
        Some(x) => x,
        None => {
            proof {
                lemma_views_len(out@);
                assert(s.len() == n);
                assert(contact_views(out@) =~= page(s, page_no as int, page_size as int));
            }
            return out;
        },
    };
    if start >= v.len() {
        proof {
            lemma_views_len(out@);
            assert(contact_views(out@) =~= page(s, page_no as int, page_size as int));
        }
        return out;
    }
    proof {
        lemma_views_len(out@);
        assert(contact_views(out@) =~= s.subrange(start as int, start as int));
    }
    let end = if page_size < v.len() - start {
        start + page_size
    } else {
        v.len()
    };
    let mut i = start;
    while i < end
        invariant
            start <= i <= end <= v@.len(),
            s == contact_views(v@),
            s.len() == v@.len(),
            contact_views(out@) == s.subrange(start as int, i as int),
        decreases end - i,
    {
        let c = v[i].clone();
        proof {
            assert(c@ == s[i as int]);
        }
        let ghost outs = out@;
        out.push(c);
        proof {
            assert(out@ == outs.push(c));
            lemma_views_push(outs, c);
            assert(s.subrange(start as int, i as int + 1) =~= s.subrange(
                start as int,
                i as int,
            ).push(s[i as int]));
            assert(contact_views(out@) == s.subrange(start as int, i as int + 1));
        }
        i = i + 1;
    }
    proof {
        assert(contact_views(out@) =~= page(s, page_no as int, page_size as int));
    }
    out
}

/// Copies out the whole store in its stored order.
pub fn store_all(v: &Vec<Contact>) -> (r: Vec<Contact>)
    ensures
        contact_views(r@) == contact_views(v@),
{
    let ghost s = contact_views(v@);
    proof {
        lemma_views_len(v@);
    }
    let mut out: Vec<Contact> = Vec::new();
    proof {
        lemma_views_len(out@);
        assert(contact_views(out@) =~= s.subrange(0, 0));
    }
    let mut i: usize = 0;
    while i < v.len()
        invariant
            i <= v@.len(),
            s == contact_views(v@),
            s.len() == v@.len(),
            contact_views(out@) == s.subrange(0, i as int),
        decreases v@.len() - i,
    {
        let c = v[i].clone();
        proof {
            assert(c@ == s[i as int]);
        }
        let ghost outs = out@;
        out.push(c);
        proof {
            assert(out@ == outs.push(c));
            lemma_views_push(outs, c);
            assert(s.subrange(0, i as int + 1) =~= s.subrange(0, i as int).push(s[i as int]));
            assert(contact_views(out@) == s.subrange(0, i as int + 1));
        }
        i = i + 1;
    }
    proof {
        assert(contact_views(out@) =~= s);
    }
    out
}

/// Upserting a whole batch folds one upsert per item, left to right.
proof fn lemma_upsert_all_snoc(s: Seq<ContactView>, items: Seq<ContactView>, c: ContactView)
    ensures
        upsert_all(s, items.push(c)) == upsert(upsert_all(s, items), c),
    decreases items.len(),
{
    if items.len() == 0 {
        assert(items.push(c)[0] == c);
        assert(items.push(c).drop_first() =~= Seq::<ContactView>::empty());
        assert(upsert_all(upsert(s, c), Seq::<ContactView>::empty()) == upsert(s, c));
        assert(upsert_all(s, items) == s);
    } else {
        assert(items.push(c)[0] == items[0]);
        assert(items.push(c).drop_first() =~= items.drop_first().push(c));
        lemma_upsert_all_snoc(upsert(s, items[0]), items.drop_first(), c);
        assert(upsert_all(s, items.push(c)) == upsert_all(
            upsert(s, items[0]),
            items.drop_first().push(c),
        ));
        assert(upsert_all(s, items) == upsert_all(upsert(s, items[0]), items.drop_first()));
    }
}

/// Upserts every item of the batch, in order.
pub fn store_upsert_all(v: &mut Vec<Contact>, items: &Vec<Contact>)
    requires
        sorted_by_name(contact_views(old(v)@)),
    ensures
        contact_views(final(v)@) == upsert_all(contact_views(old(v)@), contact_views(items@)),
        sorted_by_name(contact_views(final(v)@)),
{
    let ghost s0 = contact_views(v@);
    let ghost its = contact_views(items@);
    let mut i: usize = 0;
    proof {
        assert(its.subrange(0, 0) =~= Seq::<ContactView>::empty());
    }
    while i < items.len()
        invariant
            i <= items@.len(),
            its == contact_views(items@),
            sorted_by_name(contact_views(v@)),
            contact_views(v@) == upsert_all(s0, its.subrange(0, i as int)),
        decreases items@.len() - i,
    {
        store_upsert(v, items[i].clone());
        proof {
            lemma_upsert_all_snoc(s0, its.subrange(0, i as int), its[i as int]);
            assert(its.subrange(0, i as int + 1) =~= its.subrange(0, i as int).push(
                its[i as int],
            ));
        }
        i = i + 1;
    }
    proof {
        assert(its.subrange(0, items@.len() as int) =~= its);
    }
}

/// The view sequence of one more stored contact is one more view.
proof fn lemma_views_push(v: Seq<Contact>, c: Contact)
    ensures
        contact_views(v.push(c)) == contact_views(v).push(c@),
{
    assert forall|j: int|
        0 <= j < v.len() + 1 implies contact_views(v.push(c))[j] == contact_views(v).push(
        c@,
    )[j] by {
        if j < v.len() {
            assert(v.push(c)[j] == v[j]);
        } else {
            assert(v.push(c)[j] == c);
        }
    }
    assert(contact_views(v.push(c)) =~= contact_views(v).push(c@));
}

/// A successful lookup returns a record carrying the requested name.
pub proof fn lemma_lookup_name(s: Seq<ContactView>, name: Seq<char>)
    ensures
        lookup(s, name) matches Some(c) ==> c.name == name,
    decreases s.len(),
{
    if s.len() > 0 && s[0].name != name {
        lemma_lookup_name(s.drop_first(), name);
    }
}

/// The view sequence is as long as the stored one.
pub proof fn lemma_views_len(v: Seq<Contact>)
    ensures
        contact_views(v).len() == v.len(),
{
}

/// After an upsert, looking the upserted name up yields exactly the upserted
/// record, whatever was stored before.
pub proof fn lemma_upsert_then_lookup(s: Seq<ContactView>, c: ContactView)
    ensures
        lookup(upsert(s, c), c.name) == Some(c),
    decreases s.len(),
{
    if s.len() == 0 {
        let t = upsert(s, c);
        assert(t == seq![c]);
        assert(t[0] == c);
    } else if lex_lt(c.name, s[0].name) {
        let t = seq![c] + s;
        assert(t[0] == c);
    } else if c.name == s[0].name {
        let t = seq![c] + s.drop_first();
        assert(t[0] == c);
    } else {
        let t = seq![s[0]] + upsert(s.drop_first(), c);
        assert(t[0] == s[0]);
        assert(s[0].name != c.name);
        lemma_upsert_then_lookup(s.drop_first(), c);
        assert(t.drop_first() =~= upsert(s.drop_first(), c));
        assert(lookup(t, c.name) == lookup(t.drop_first(), c.name));
    }
}

/// An upsert leaves the record stored under every other name untouched.
pub proof fn lemma_upsert_keeps_others(s: Seq<ContactView>, c: ContactView, other: Seq<char>)
    requires
        other != c.name,
    ensures
        lookup(upsert(s, c), other) == lookup(s, other),
    decreases s.len(),
{
    if s.len() == 0 {
        let t = upsert(s, c);
        assert(t == seq![c]);
        assert(t[0] == c);
        assert(t.drop_first() =~= Seq::<ContactView>::empty());
        assert(lookup(t, other) == lookup(t.drop_first(), other));
    } else if lex_lt(c.name, s[0].name) {
        let t = seq![c] + s;
        assert(t[0] == c);
        assert(t.drop_first() =~= s);
        assert(lookup(t, other) == lookup(t.drop_first(), other));
    } else if c.name == s[0].name {
        let t = seq![c] + s.drop_first();
        assert(t[0] == c);
        assert(t.drop_first() =~= s.drop_first());
        assert(lookup(t, other) == lookup(t.drop_first(), other));
        assert(lookup(s, other) == lookup(s.drop_first(), other));
    } else {
        let t = seq![s[0]] + upsert(s.drop_first(), c);
        assert(t[0] == s[0]);
        assert(t.drop_first() =~= upsert(s.drop_first(), c));
        if s[0].name == other {
            assert(lookup(t, other) == Some(t[0]));
            assert(lookup(s, other) == Some(s[0]));
        } else {
            lemma_upsert_keeps_others(s.drop_first(), c, other);
            assert(lookup(t, other) == lookup(t.drop_first(), other));
            assert(lookup(s, other) == lookup(s.drop_first(), other));
        }
    }
}

/// A name that looks up as absent occurs nowhere in the sequence.
proof fn lemma_lookup_none_absent(s: Seq<ContactView>, name: Seq<char>)
    requires
        lookup(s, name) is None,
    ensures
        forall|j: int| 0 <= j < s.len() ==> s[j].name != name,
    decreases s.len(),
{
    if s.len() > 0 {
        assert(s[0].name != name);
        lemma_lookup_none_absent(s.drop_first(), name);
        assert forall|j: int| 0 <= j < s.len() implies s[j].name != name by {
            if j > 0 {
                assert(s.drop_first()[j - 1] == s[j]);
            }
        }
    }
}

/// After a removal, the removed name looks up as absent.
pub proof fn lemma_remove_then_lookup(s: Seq<ContactView>, name: Seq<char>)
    requires
        sorted_by_name(s),
    ensures
        lookup(remove_name(s, name), name) is None,
{
    lemma_boundary_exists(s, name);
    let i = choose|i: int| boundary_at(s, name, i);
    lemma_remove_at(s, name, i);
    if i < s.len() && s[i].name == name {
        let t = s.remove(i);
        s.remove_ensures(i);
        lemma_sorted_remove(s, i);
        assert forall|j: int| 0 <= j < i implies lex_lt(t[j].name, name) by {
            assert(t[j] == s[j]);
        }
        if i < t.len() {
            assert(t[i] == s[i + 1]);
            assert(lex_lt(s[i].name, s[i + 1].name));
            lemma_lex_lt_asymmetric(s[i].name, s[i + 1].name);
        }
        assert(boundary_at(t, name, i));
        lemma_lookup_at(t, name, i);
        if i < t.len() && t[i].name == name {
            assert(lex_lt(name, t[i].name));
            lemma_lex_lt_irreflexive(name);
        }
    } else {
        lemma_lookup_at(s, name, i);
    }
}

/// Removing a name twice is the same as removing it once: the second removal
/// finds nothing and changes nothing.
pub proof fn lemma_remove_idempotent(s: Seq<ContactView>, name: Seq<char>)
    requires
        sorted_by_name(s),
    ensures
        remove_name(remove_name(s, name), name) == remove_name(s, name),
{
    let t = remove_name(s, name);
    lemma_remove_then_lookup(s, name);
    lemma_lookup_none_absent(t, name);
    lemma_remove_absent(t, name);
}

/// Upserting a record above everything stored appends it at the end.
proof fn lemma_upsert_append(t: Seq<ContactView>, c: ContactView)
    requires
        forall|j: int| 0 <= j < t.len() ==> lex_lt(#[trigger] t[j].name, c.name),
    ensures
        upsert(t, c) == t.push(c),
    decreases t.len(),
{
    if t.len() == 0 {
        assert(upsert(t, c) =~= t.push(c));
    } else {
        assert(lex_lt(t[0].name, c.name));
        lemma_lex_lt_asymmetric(t[0].name, c.name);
        lemma_lex_lt_irreflexive(c.name);
        assert(c.name != t[0].name);
        assert forall|j: int|
            0 <= j < t.drop_first().len() implies lex_lt(
            #[trigger] t.drop_first()[j].name,
            c.name,
        ) by {
            assert(t.drop_first()[j] == t[j + 1]);
        }
        lemma_upsert_append(t.drop_first(), c);
        assert(seq![t[0]] + t.drop_first().push(c) =~= t.push(c));
    }
}

/// Replaying an ascending suffix of a sorted sequence on top of the matching
/// prefix rebuilds the whole sequence.
proof fn lemma_replay_suffix(s: Seq<ContactView>, m: int)
    requires
        sorted_by_name(s),
        0 <= m <= s.len(),
    ensures
        upsert_all(s.subrange(0, m), s.subrange(m, s.len() as int)) == s,
    decreases s.len() - m,
{
    let acc = s.subrange(0, m);
    let items = s.subrange(m, s.len() as int);
    if m == s.len() {
        assert(items =~= Seq::<ContactView>::empty());
        assert(upsert_all(acc, items) == acc);
        assert(acc =~= s);
    } else {
        assert(items[0] == s[m]);
        assert forall|j: int| 0 <= j < acc.len() implies lex_lt(
            #[trigger] acc[j].name,
            s[m].name,
        ) by {
            assert(acc[j] == s[j]);
        }
        lemma_upsert_append(acc, s[m]);
        assert(acc.push(s[m]) =~= s.subrange(0, m + 1));
        assert(items.drop_first() =~= s.subrange(m + 1, s.len() as int));
        lemma_replay_suffix(s, m + 1);
        assert(upsert_all(acc, items) == upsert_all(
            upsert(acc, items[0]),
            items.drop_first(),
        ));
    }
}

/// The bulk round trip: importing an exported sorted record set into an
/// empty store reproduces it exactly.
pub proof fn lemma_import_of_export(s: Seq<ContactView>)
    requires
        sorted_by_name(s),
    ensures
        upsert_all(Seq::empty(), s) == s,
{
    lemma_replay_suffix(s, 0);
    assert(s.subrange(0, 0) =~= Seq::<ContactView>::empty());
    assert(s.subrange(0, s.len() as int) =~= s);
}

/// The concatenation of the first `k` pages of a listing, in order.
pub open spec fn pages_concat(s: Seq<ContactView>, page_size: int, k: int) -> Seq<ContactView>
    decreases k,
{
    if k <= 0 {
        Seq::empty()
    } else {
        pages_concat(s, page_size, k - 1) + page(s, k - 1, page_size)
    }
}

/// The first `k` pages of positive size cover exactly the first `k *
/// page_size` entries, or everything once the pages run past the end.
proof fn lemma_pages_cover(s: Seq<ContactView>, page_size: int, k: int)
    requires
        page_size > 0,
        k >= 0,
    ensures
        pages_concat(s, page_size, k) == if k * page_size <= s.len() {
            s.subrange(0, k * page_size)
        } else {
            s.subrange(0, s.len() as int)
        },
    decreases k,
{
    if k == 0 {
        assert(pages_concat(s, page_size, 0) =~= s.subrange(0, 0));
    } else {
        lemma_pages_cover(s, page_size, k - 1);
        let prev = (k - 1) * page_size;
        assert(k * page_size == (k - 1) * page_size + page_size) by (nonlinear_arith);
        assert((k - 1) * page_size >= 0) by (nonlinear_arith)
            requires
                k >= 1,
                page_size > 0,
        ;
        let p = page(s, k - 1, page_size);
        if prev >= s.len() {
            assert(p =~= Seq::<ContactView>::empty());
            assert(pages_concat(s, page_size, k) =~= s.subrange(0, s.len() as int));
        } else {
            assert(pages_concat(s, page_size, k - 1) == s.subrange(0, prev));
            if prev + page_size <= s.len() {
                assert(p == s.subrange(prev, prev + page_size));
                assert(pages_concat(s, page_size, k) =~= s.subrange(0, prev + page_size));
            } else {
                assert(p == s.subrange(prev, s.len() as int));
                assert(pages_concat(s, page_size, k) =~= s.subrange(0, s.len() as int));
            }
        }
    }
}

/// Paging is order-stable and complete: for any positive page size, walking
/// the pages from the first until they run past the end reproduces the whole
/// stored sequence, with nothing repeated and nothing left out.
pub proof fn lemma_pages_reconstruct(s: Seq<ContactView>, page_size: int, k: int)
    requires
        page_size > 0,
        k >= 0,
        k * page_size >= s.len(),
    ensures
        pages_concat(s, page_size, k) == s,
{
    lemma_pages_cover(s, page_size, k);
    if k * page_size <= s.len() {
        assert(s.subrange(0, k * page_size) =~= s);
    } else {
        assert(s.subrange(0, s.len() as int) =~= s);
    }
}

/// A page of size zero is empty, whatever the page index.
pub proof fn lemma_zero_size_page(s: Seq<ContactView>, page_no: int)
    ensures
        page(s, page_no, 0) == Seq::<ContactView>::empty(),
{
}

} // verus!
