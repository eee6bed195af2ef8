use vstd::prelude::*;

use crate::model::{
    add_all, add_spec, add_step, has_key, key_index, lemma_add_spec_wf, lemma_key_index,
    lemma_key_index_at, lemma_key_index_none, lemma_remove_spec_wf, list_at, list_or_empty,
    list_spec, listing_from, listing_of, parse_indices, reg_wf, remove_many, remove_spec,
    remove_step, upsert, RegModel,
};
use crate::text::{
    items_of, items_of_pieces, parse_index, split_commas, split_whitespace_str, str_eq, trim_spec,
    trim_str, views_of,
};
use crate::text::fmt_usize;

verus! {

/// One conversation's entry: its identifier and its ordered shopping list.
pub struct Entry {
    pub chat: i64,
    pub items: Vec<String>,
}

/// The registry of every conversation's list, in order of first appearance.
pub struct Registry {
    pub entries: Vec<Entry>,
}

/// The items named in an `add` command: comma pieces, trimmed, empties
/// dropped.
#[verifier::loop_isolation(false)]
fn build_items(raw: &str) -> (r: Vec<String>)
    ensures
        views_of(r@) == items_of(raw@),
{
    let pieces = split_commas(raw);
    let ghost pv = views_of(pieces@);
    let mut items: Vec<String> = Vec::new();
    let mut j: usize = 0;
    proof {
        assert(pv.skip(0) =~= pv);
    }
    while j < pieces.len()
        invariant
            0 <= j <= pieces.len(),
            items_of_pieces(pv) == views_of(items@) + items_of_pieces(pv.skip(j as int)),
        decreases pieces.len() - j,
    {
        let t = trim_str(pieces[j].as_str());
        proof {
            assert(pv.skip(j as int)[0] == pv[j as int]);
            assert(pv.skip(j as int).drop_first() =~= pv.skip(j as int + 1));
            assert(pv[j as int] == pieces@[j as int]@);
        }
        if t.as_str().is_empty() {
            proof {
                assert(items_of_pieces(pv.skip(j as int)) == items_of_pieces(
                    pv.skip(j as int + 1),
                ));
            }
        } else {
            let ghost old_items = items@;
            items.push(t);
            proof {
                assert(views_of(items@) =~= views_of(old_items).push(trim_spec(pv[j as int])));
                assert(items_of_pieces(pv.skip(j as int)) == seq![trim_spec(pv[j as int])]
                    + items_of_pieces(pv.skip(j as int + 1)));
                assert(views_of(old_items) + items_of_pieces(pv.skip(j as int)) =~= views_of(
                    items@,
                ) + items_of_pieces(pv.skip(j as int + 1)));
            }
        }
        j = j + 1;
    }
    proof {
        assert(pv.skip(pieces.len() as int) =~= Seq::<Seq<char>>::empty());
        assert(views_of(items@) + items_of_pieces(Seq::<Seq<char>>::empty()) =~= views_of(items@));
    }
    items
}

/// The removal indices of a `remove` command: tokens parsed in order, cut at
/// the first token that is no index.
#[verifier::loop_isolation(false)]
fn parse_indices_vec(tokens: &Vec<String>) -> (r: Vec<usize>)
    ensures
        r@ == parse_indices(views_of(tokens@)),
{
    let ghost tv = views_of(tokens@);
    let mut r: Vec<usize> = Vec::new();
    let mut i: usize = 0;
    proof {
        assert(tv.skip(0) =~= tv);
    }
    while i < tokens.len()
        invariant
            0 <= i <= tokens.len(),
            parse_indices(tv) == r@ + parse_indices(tv.skip(i as int)),
        decreases tokens.len() - i,
    {
        proof {
            assert(tv.skip(i as int)[0] == tv[i as int]);
            assert(tv.skip(i as int).drop_first() =~= tv.skip(i as int + 1));
            assert(tv[i as int] == tokens@[i as int]@);
        }
        match parse_index(tokens[i].as_str()) {
            Option::Some(v) => {
                let ghost old_r = r@;
                r.push(v);
                proof {
                    assert(parse_indices(tv.skip(i as int)) == seq![v] + parse_indices(
                        tv.skip(i as int + 1),
                    ));
                    assert(old_r + parse_indices(tv.skip(i as int)) =~= r@ + parse_indices(
                        tv.skip(i as int + 1),
                    ));
                }
            },
            Option::None => {
                proof {
                    assert(parse_indices(tv.skip(i as int)) == Seq::<usize>::empty());
                    assert(r@ + Seq::<usize>::empty() =~= r@);
                }
                return r;
            },
        }
        i = i + 1;
    }
    proof {
        assert(tv.skip(tokens.len() as int) =~= Seq::<Seq<char>>::empty());
        assert(r@ + parse_indices(Seq::<Seq<char>>::empty()) =~= r@);
    }
    r
}

/// The model of a sequence of entries.
pub open spec fn entries_model(es: Seq<Entry>) -> RegModel {
    es.map_values(|e: Entry| (e.chat, views_of(e.items@)))
}

impl Registry {
    pub open spec fn model(self) -> RegModel {
        entries_model(self.entries@)
    }

    pub open spec fn wf(self) -> bool {
        reg_wf(self.model())
    }

    /// A registry with no conversation at all.
    pub fn new() -> (r: Registry)
        ensures
            r.wf(),
            r.model() == Seq::<(i64, Seq<Seq<char>>)>::empty(),
    {
        let r = Registry { entries: Vec::new() };
        proof {
            assert(r.model() =~= Seq::<(i64, Seq<Seq<char>>)>::empty());
        }
        r
    }

    /// Position of the entry for `id` among the entries, when there is one.
    #[verifier::loop_isolation(false)]
    fn find_entry(&self, id: i64) -> (r: Option<usize>)
        ensures
            match r {
                Option::Some(k) => (k as int) < self.model().len() && key_index(
                    self.model(),
                    id,
                ) == k as int,
                Option::None => key_index(self.model(), id) == -1,
            },
    {
        let ghost m = self.model();
        let mut i: usize = 0;
        while i < self.entries.len()
            invariant
                0 <= i <= self.entries.len(),
                forall|j: int| 0 <= j < i ==> m[j].0 != id,
            decreases self.entries.len() - i,
        {
            if self.entries[i].chat == id {
                proof {
                    assert(m[i as int].0 == id);
                    lemma_key_index_at(m, id, i as int);
                }
                return Option::Some(i);
            }
            proof {
                assert(m[i as int].0 == self.entries@[i as int].chat);
            }
            i = i + 1;
        }
        proof {
            lemma_key_index_none(m, id);
        }
        Option::None
    }

    /// Whether the conversation `id` has a list at all.
    pub fn has_list(&self, id: i64) -> (r: bool)
        ensures
            r == has_key(self.model(), id),
    {
        proof {
            lemma_key_index(self.model(), id);
        }
        match self.find_entry(id) {
            Option::Some(_) => true,
            Option::None => false,
        }
    }

    /// The `add` command: append each new item of `raw` to the conversation's
    /// list, report the ones already present, and say whether the registry
    /// changed.
    #[verifier::loop_isolation(false)]
    pub fn add(&mut self, id: i64, raw: &str) -> (r: (String, bool))
        requires
            old(self).wf(),
        ensures
            final(self).wf(),
            final(self).model() == add_spec(old(self).model(), id, raw@).0,
            r.0@ == add_spec(old(self).model(), id, raw@).1,
            r.1 == add_spec(old(self).model(), id, raw@).2,
    {
        let ghost m0 = self.model();
        let items = build_items(raw);
        let ghost iv = views_of(items@);
        let k: usize;
        let created: bool;
        match self.find_entry(id) {
            Option::Some(kk) => {
                k = kk;
                created = false;
            },
            Option::None => {
                k = self.entries.len();
                self.entries.push(Entry { chat: id, items: Vec::new() });
                created = true;
            },
        }
        proof {
            lemma_key_index(m0, id);
            if created {
                assert(self.model() =~~= m0.push((id, Seq::<Seq<char>>::empty())));
                assert(views_of(self.entries@[k as int].items@) =~= Seq::<Seq<char>>::empty());
            }
        }
        let ghost list0 = list_or_empty(m0, id);
        let ghost target = add_all(list0, iv);
        let mut list = self.entries[k].items.clone();
        proof {
            assert(list@ =~= self.entries@[k as int].items@);
            if !created {
                assert(m0[k as int].1 == views_of(self.entries@[k as int].items@));
            }
            assert(views_of(list@) == list0);
            assert(iv.skip(0) =~= iv);
        }
        let mut resp = String::new();
        let mut changed = false;
        let mut i: usize = 0;
        while i < items.len()
            invariant
                0 <= i <= items.len(),
                target.0 == add_all(views_of(list@), iv.skip(i as int)).0,
                target.1 == resp@ + add_all(views_of(list@), iv.skip(i as int)).1,
                target.2 == (changed || add_all(views_of(list@), iv.skip(i as int)).2),
            decreases items.len() - i,
        {
            let ghost lv = views_of(list@);
            proof {
                assert(iv.skip(i as int)[0] == iv[i as int]);
                assert(iv.skip(i as int).drop_first() =~= iv.skip(i as int + 1));
                assert(iv[i as int] == items@[i as int]@);
            }
            let mut found_dup = false;
            let mut jj: usize = 0;
            while jj < list.len()
                invariant
                    0 <= jj <= list.len(),
                    found_dup ==> lv.contains(iv[i as int]),
                    !found_dup ==> forall|q: int| 0 <= q < jj ==> lv[q] != iv[i as int],
                decreases list.len() - jj,
            {
                if str_eq(list[jj].as_str(), items[i].as_str()) {
                    proof {
                        assert(lv[jj as int] == iv[i as int]);
                    }
                    found_dup = true;
                }
                jj = jj + 1;
            }
            proof {
                if !found_dup {
                    assert(!lv.contains(iv[i as int]));
                }
            }
            let ghost step = add_step(lv, iv[i as int]);
            let ghost old_resp = resp@;
            if found_dup {
                resp.append("You already have the item on the list.\n");
                proof {
                    assert(resp@ == old_resp + step.1);
                }
            } else {
                list.push(items[i].clone());
                resp.append("Successfully added item(");
                resp.append(items[i].as_str());
                resp.append(") to shopping list.\n");
                changed = true;
                proof {
                    assert(views_of(list@) =~= lv.push(iv[i as int]));
                    assert(resp@ =~= old_resp + step.1);
                }
            }
            proof {
                assert(step.0 == views_of(list@));
                assert(add_all(lv, iv.skip(i as int)).1 == step.1 + add_all(
                    step.0,
                    iv.skip(i as int + 1),
                ).1);
                assert(old_resp + (step.1 + add_all(step.0, iv.skip(i as int + 1)).1) =~= resp@
                    + add_all(step.0, iv.skip(i as int + 1)).1);
            }
            i = i + 1;
        }
        proof {
            assert(iv.skip(items.len() as int) =~= Seq::<Seq<char>>::empty());
            assert(target.0 == views_of(list@));
            assert(resp@ + Seq::<char>::empty() =~= resp@);
            assert(target.1 == resp@);
            assert(target.2 == changed);
        }
        self.entries.set(k, Entry { chat: id, items: list });
        proof {
            if created {
                assert(self.model() =~~= m0.push((id, target.0)));
            } else {
                assert(self.model() =~~= m0.update(k as int, (id, target.0)));
            }
            assert(self.model() == upsert(m0, id, target.0));
            lemma_add_spec_wf(m0, id, raw@);
        }
        (resp, changed || created)
    }

    /// The `remove` command: the literal "all" empties the conversation's
    /// list; otherwise each parsed index removes the item at that position,
    /// in the order given.
    #[verifier::loop_isolation(false)]
    pub fn remove(&mut self, id: i64, raw: &str) -> (r: (String, bool))
        requires
            old(self).wf(),
        ensures
            final(self).wf(),
            final(self).model() == remove_spec(old(self).model(), id, raw@).0,
            r.0@ == remove_spec(old(self).model(), id, raw@).1,
            r.1 == remove_spec(old(self).model(), id, raw@).2,
    {
        let ghost m0 = self.model();
        proof {
            lemma_key_index(m0, id);
            lemma_remove_spec_wf(m0, id, raw@);
        }
        if str_eq(raw, "all") {
            match self.find_entry(id) {
                Option::Some(k) => {
                    let was = self.entries[k].items.len() > 0;
                    proof {
                        assert(list_at(m0, id) == views_of(self.entries@[k as int].items@));
                    }
                    self.entries.set(k, Entry { chat: id, items: Vec::new() });
                    proof {
                        assert(views_of(self.entries@[k as int].items@) =~= Seq::<
                            Seq<char>,
                        >::empty());
                        assert(self.model() =~~= m0.update(k as int, (id, Seq::<Seq<char>>::empty())));
                        assert(self.model() == upsert(m0, id, Seq::<Seq<char>>::empty()));
                    }
                    (String::from_str("Removed all items from the shopping list"), was)
                },
                Option::None => {
                    (String::from_str("Removed all items from the shopping list"), false)
                },
            }
        } else {
            let tokens = split_whitespace_str(raw);
            let idxs = parse_indices_vec(&tokens);
            match self.find_entry(id) {
                Option::None => (String::from_str("Not subbed to anything..."), false),
                Option::Some(k) => {
                    let ghost l0 = list_at(m0, id);
                    let ghost target = remove_many(l0, idxs@);
                    let mut list = self.entries[k].items.clone();
                    proof {
                        assert(list@ =~= self.entries@[k as int].items@);
                        assert(m0[k as int].1 == views_of(self.entries@[k as int].items@));
                        assert(views_of(list@) == l0);
                        assert(idxs@.skip(0) =~= idxs@);
                    }
                    let mut resp = String::new();
                    let mut changed = false;
                    let mut i: usize = 0;
                    while i < idxs.len()
                        invariant
                            0 <= i <= idxs.len(),
                            target.0 == remove_many(views_of(list@), idxs@.skip(i as int)).0,
                            target.1 == resp@ + remove_many(views_of(list@), idxs@.skip(i as int)).1,
                            target.2 == (changed || remove_many(
                                views_of(list@),
                                idxs@.skip(i as int),
                            ).2),
                        decreases idxs.len() - i,
                    {
                        let ghost lv = views_of(list@);
                        proof {
                            assert(idxs@.skip(i as int)[0] == idxs@[i as int]);
                            assert(idxs@.skip(i as int).drop_first() =~= idxs@.skip(i as int + 1));
                        }
                        let ghost step = remove_step(lv, idxs@[i as int]);
                        let ghost old_resp = resp@;
                        let idx = idxs[i];
                        if idx < list.len() {
                            let _removed = list.remove(idx);
                            resp.append("Successfully removed item from list.\n");
                            changed = true;
                            proof {
                                assert(views_of(list@) =~= lv.remove(idx as int));
                                assert(resp@ == old_resp + step.1);
                            }
                        } else {
                            resp.append("No item at that index.\n");
                            proof {
                                assert(resp@ == old_resp + step.1);
                            }
                        }
                        proof {
                            assert(step.0 == views_of(list@));
                            assert(remove_many(lv, idxs@.skip(i as int)).1 == step.1 + remove_many(
                                step.0,
                                idxs@.skip(i as int + 1),
                            ).1);
                            assert(old_resp + (step.1 + remove_many(
                                step.0,
                                idxs@.skip(i as int + 1),
                            ).1) =~= resp@ + remove_many(step.0, idxs@.skip(i as int + 1)).1);
                        }
                        i = i + 1;
                    }
                    proof {
                        assert(idxs@.skip(idxs.len() as int) =~= Seq::<usize>::empty());
                        assert(target.0 == views_of(list@));
                        assert(resp@ + Seq::<char>::empty() =~= resp@);
                        assert(target.1 == resp@);
                        assert(target.2 == changed);
                    }
                    self.entries.set(k, Entry { chat: id, items: list });
                    proof {
                        assert(self.model() =~~= m0.update(k as int, (id, target.0)));
                        assert(self.model() == upsert(m0, id, target.0));
                    }
                    (resp, changed)
                },
            }
        }
    }

    /// The `list` command: every item of the conversation's list on its own
    /// line after its current index.
    #[verifier::loop_isolation(false)]
    pub fn list(&self, id: i64) -> (r: String)
        ensures
            r@ == list_spec(self.model(), id),
    {
        proof {
            lemma_key_index(self.model(), id);
        }
        match self.find_entry(id) {
            Option::None => String::from_str("Not subbed to anything..."),
            Option::Some(k) => {
                let ghost lv = list_at(self.model(), id);
                proof {
                    assert(lv == views_of(self.entries@[k as int].items@));
                }
                let n = self.entries[k].items.len();
                let mut out = String::new();
                let mut i: usize = 0;
                while i < n
                    invariant
                        0 <= i <= n,
                        listing_of(lv) == out@ + listing_from(lv, i as int),
                    decreases n - i,
                {
                    let ghost old_out = out@;
                    out.append("\n");
                    let num = fmt_usize(i);
                    out.append(num.as_str());
                    out.append("\t\t");
                    out.append(self.entries[k].items[i].as_str());
                    proof {
                        assert(self.entries@[k as int].items@[i as int]@ == lv[i as int]);
                        assert(listing_from(lv, i as int) == "\n"@ + crate::text::dec_of(i as nat)
                            + "\t\t"@ + lv[i as int] + listing_from(lv, i as int + 1));
                        assert(old_out + ("\n"@ + crate::text::dec_of(i as nat) + "\t\t"@
                            + lv[i as int] + listing_from(lv, i as int + 1)) =~= out@
                            + listing_from(lv, i as int + 1));
                    }
                    i = i + 1;
                }
                proof {
                    assert(listing_from(lv, n as int) == Seq::<char>::empty());
                    assert(out@ + Seq::<char>::empty() =~= out@);
                }
                out
            },
        }
    }
}

} // verus!
