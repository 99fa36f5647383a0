//! Part relationships: which part a relationship id points at, and of what kind it is.
//!
//! Every `.rels` part of a document declares relationships. They all go into one table
//! keyed by relationship id, whatever part declared them: an id that is declared again
//! replaces the earlier declaration.

use vstd::prelude::*;
use crate::errors::Error;
use crate::table::{
    distinct_keys, key_index, lemma_entry_is_found, lemma_put_is_map_insert,
    lemma_put_keeps_keys_distinct, lookup, mapping, put, Table,
};
use crate::text::{ends_with, same_text, strip_leading_slash, without_leading_slash};
use crate::xml_events::{
    attribute_value, find_attribute, has_failure, lemma_failure_in_front, views, AttributeView,
    Token, TokenView,
};

verus! {

/// A relationship: the path of the part it points at, and its kind.
#[derive(Clone, Debug, PartialEq, Eq)]
pub struct Relation {
    /// The path of the target part from the root of the archive, without a leading `/`.
    pub target: String,
    /// The kind of the relationship, a URI.
    pub kind: String,
}

/// A [`Relation`] over character sequences.
pub struct RelationView {
    pub target: Seq<char>,
    pub kind: Seq<char>,
}

impl View for Relation {
    type V = RelationView;

    open spec fn view(&self) -> RelationView {
        RelationView { target: self.target@, kind: self.kind@ }
    }
}

/// The entries of a relationship table: relationship ids with their relationships.
pub type RelationEntries = Seq<(Seq<char>, RelationView)>;

/// What a `Relationship` element declares: under the id of its attribute `Id`, the target
/// of its attribute `Target` without a leading `/`, and the kind of its attribute `Type`.
/// An attribute that is missing counts as empty.
pub open spec fn declared_relation(attributes: Seq<AttributeView>) -> (Seq<char>, RelationView) {
    (
        attribute_value(attributes, "Id"@),
        RelationView {
            target: without_leading_slash(attribute_value(attributes, "Target"@)),
            kind: attribute_value(attributes, "Type"@),
        },
    )
}

/// The table after one token: a `Relationship` start element stores what it declares,
/// any other token changes nothing.
pub open spec fn with_relation(entries: RelationEntries, token: TokenView) -> RelationEntries {
    match token {
        TokenView::Start { name, attributes } => if name == "Relationship"@ {
            put(entries, declared_relation(attributes).0, declared_relation(attributes).1)
        } else {
            entries
        },
        _ => entries,
    }
}

/// The table after the tokens of a `.rels` part, and whether the tokenizer failed on the
/// part. Tokens are read up to the first read failure: what was declared before it stays
/// in the table.
pub open spec fn relations_run(entries: RelationEntries, tokens: Seq<TokenView>) -> (
    RelationEntries,
    bool,
)
    decreases tokens.len(),
{
    if tokens.len() == 0 {
        (entries, false)
    } else {
        let before = relations_run(entries, tokens.drop_last());
        if before.1 || tokens.last() is Failure {
            (before.0, true)
        } else {
            (with_relation(before.0, tokens.last()), false)
        }
    }
}

/// After a read failure the remaining tokens change nothing.
pub proof fn lemma_relations_run_stops(entries: RelationEntries, tokens: Seq<TokenView>, k: int)
    requires
        0 <= k <= tokens.len(),
        relations_run(entries, tokens.take(k)).1,
    ensures
        relations_run(entries, tokens) == relations_run(entries, tokens.take(k)),
    decreases tokens.len(),
{
    if k == tokens.len() {
        assert(tokens.take(k) =~= tokens);
    } else {
        assert(tokens.drop_last().take(k) =~= tokens.take(k));
        lemma_relations_run_stops(entries, tokens.drop_last(), k);
    }
}

/// Reading a `.rels` part fails exactly when the tokenizer failed on it: no relationship,
/// of whatever kind, makes the reading fail.
pub proof fn lemma_relations_run_fails_on_failure(
    entries: RelationEntries,
    tokens: Seq<TokenView>,
)
    ensures
        relations_run(entries, tokens).1 <==> has_failure(tokens),
    decreases tokens.len(),
{
    if tokens.len() > 0 {
        lemma_relations_run_fails_on_failure(entries, tokens.drop_last());
        lemma_failure_in_front(tokens);
    }
}

/// Reading a `.rels` part keeps every relationship id single.
pub proof fn lemma_relations_run_keeps_ids_distinct(
    entries: RelationEntries,
    tokens: Seq<TokenView>,
)
    requires
        distinct_keys(entries),
    ensures
        distinct_keys(relations_run(entries, tokens).0),
    decreases tokens.len(),
{
    if tokens.len() > 0 {
        let before = relations_run(entries, tokens.drop_last());
        lemma_relations_run_keeps_ids_distinct(entries, tokens.drop_last());
        match tokens.last() {
            TokenView::Start { name, attributes } => {
                lemma_put_keeps_keys_distinct(
                    before.0,
                    declared_relation(attributes).0,
                    declared_relation(attributes).1,
                );
            },
            _ => {},
        }
    }
}

/// Whether `token` is a `Relationship` start element that declares a relationship under
/// the id `id`.
pub open spec fn token_declares_id(token: TokenView, id: Seq<char>) -> bool {
    token matches TokenView::Start { name, attributes } && name == "Relationship"@
        && declared_relation(attributes).0 == id
}

/// Whether `token` is a `Relationship` start element that declares `relation` under the
/// id `id`.
pub open spec fn token_declares(token: TokenView, id: Seq<char>, relation: RelationView) -> bool {
    token matches TokenView::Start { name, attributes } && name == "Relationship"@
        && declared_relation(attributes) == (id, relation)
}

/// An id that a part does not declare keeps the relationship it had.
pub proof fn lemma_undeclared_id_keeps_its_relation(
    entries: RelationEntries,
    tokens: Seq<TokenView>,
    id: Seq<char>,
)
    requires
        distinct_keys(entries),
        !relations_run(entries, tokens).1,
        forall|t: int| 0 <= t < tokens.len() ==> !token_declares_id(#[trigger] tokens[t], id),
    ensures
        lookup(relations_run(entries, tokens).0, id) == lookup(entries, id),
    decreases tokens.len(),
{
    if tokens.len() > 0 {
        let front = tokens.drop_last();
        let before = relations_run(entries, front).0;
        assert forall|t: int| 0 <= t < front.len() implies !token_declares_id(
            #[trigger] front[t],
            id,
        ) by {
            assert(front[t] == tokens[t]);
        }
        lemma_undeclared_id_keeps_its_relation(entries, front, id);
        lemma_relations_run_keeps_ids_distinct(entries, front);
        assert(!token_declares_id(tokens[tokens.len() - 1], id));
        match tokens.last() {
            TokenView::Start { name, attributes } => {
                lemma_put_is_map_insert(
                    before,
                    declared_relation(attributes).0,
                    declared_relation(attributes).1,
                );
            },
            _ => {},
        }
    }
}

/// Last write wins: after a part is read, an id holds the relationship that the last of
/// its declarations in the part gave it.
pub proof fn lemma_last_declaration_is_found(
    entries: RelationEntries,
    tokens: Seq<TokenView>,
    at: int,
    id: Seq<char>,
    relation: RelationView,
)
    requires
        distinct_keys(entries),
        !relations_run(entries, tokens).1,
        0 <= at < tokens.len(),
        token_declares(tokens[at], id, relation),
        forall|t: int| at < t < tokens.len() ==> !token_declares_id(#[trigger] tokens[t], id),
    ensures
        lookup(relations_run(entries, tokens).0, id) == Some(relation),
    decreases tokens.len(),
{
    let front = tokens.drop_last();
    let before = relations_run(entries, front).0;
    lemma_relations_run_keeps_ids_distinct(entries, front);
    if at == tokens.len() - 1 {
        lemma_put_is_map_insert(before, id, relation);
    } else {
        assert(front[at] == tokens[at]);
        assert forall|t: int| at < t < front.len() implies !token_declares_id(
            #[trigger] front[t],
            id,
        ) by {
            assert(front[t] == tokens[t]);
        }
        lemma_last_declaration_is_found(entries, front, at, id, relation);
        assert(!token_declares_id(tokens[tokens.len() - 1], id));
        match tokens.last() {
            TokenView::Start { name, attributes } => {
                lemma_put_is_map_insert(
                    before,
                    declared_relation(attributes).0,
                    declared_relation(attributes).1,
                );
            },
            _ => {},
        }
    }
}

/// The target of the first relationship, in table order, whose kind ends with `suffix`.
pub open spec fn target_of_kind(entries: RelationEntries, suffix: Seq<char>) -> Option<Seq<char>>
    decreases entries.len(),
{
    if entries.len() == 0 {
        None
    } else if suffix.is_suffix_of(entries[0].1.kind) {
        Some(entries[0].1.target)
    } else {
        target_of_kind(entries.drop_first(), suffix)
    }
}

/// Whether entry `i` is the first whose kind ends with `suffix`.
pub open spec fn is_first_of_kind(entries: RelationEntries, suffix: Seq<char>, i: int) -> bool {
    &&& 0 <= i < entries.len()
    &&& suffix.is_suffix_of(entries[i].1.kind)
    &&& forall|j: int| 0 <= j < i ==> !suffix.is_suffix_of((#[trigger] entries[j]).1.kind)
}

/// A lookup by kind finds the first relationship whose kind ends with the suffix, and
/// finds nothing exactly when no kind ends with it: a relationship of any other kind is
/// never the one found.
pub proof fn lemma_target_of_kind(entries: RelationEntries, suffix: Seq<char>)
    ensures
        match target_of_kind(entries, suffix) {
            Some(target) => exists|i: int| #[trigger]
                is_first_of_kind(entries, suffix, i) && entries[i].1.target == target,
            None => forall|j: int|
                0 <= j < entries.len() ==> !suffix.is_suffix_of((#[trigger] entries[j]).1.kind),
        },
    decreases entries.len(),
{
    if entries.len() == 0 {
    } else if suffix.is_suffix_of(entries[0].1.kind) {
        assert(is_first_of_kind(entries, suffix, 0));
    } else {
        let rest = entries.drop_first();
        lemma_target_of_kind(rest, suffix);
        match target_of_kind(rest, suffix) {
            Some(target) => {
                let i = choose|i: int| #[trigger]
                    is_first_of_kind(rest, suffix, i) && rest[i].1.target == target;
                assert forall|j: int| 0 <= j < i + 1 implies !suffix.is_suffix_of(
                    (#[trigger] entries[j]).1.kind,
                ) by {
                    if j > 0 {
                        assert(rest[j - 1] == entries[j]);
                    }
                }
                assert(rest[i] == entries[i + 1]);
                assert(is_first_of_kind(entries, suffix, i + 1));
            },
            None => {
                assert forall|j: int| 0 <= j < entries.len() implies !suffix.is_suffix_of(
                    (#[trigger] entries[j]).1.kind,
                ) by {
                    if j > 0 {
                        assert(rest[j - 1] == entries[j]);
                    }
                }
            },
        }
    }
}

/// Whether at most one relationship has a kind that ends with `suffix`.
pub open spec fn single_of_kind(entries: RelationEntries, suffix: Seq<char>) -> bool {
    forall|i: int, j: int|
        0 <= i < entries.len() && 0 <= j < entries.len() && suffix.is_suffix_of(
            (#[trigger] entries[i]).1.kind,
        ) && suffix.is_suffix_of((#[trigger] entries[j]).1.kind) ==> i == j
}

/// A lookup by kind does not depend on the order in which the relationships came into
/// the table: two tables that hold the same relationships under the same ids find the
/// same target, where at most one relationship is of the kind looked for.
pub proof fn lemma_kind_lookup_ignores_order(
    a: RelationEntries,
    b: RelationEntries,
    suffix: Seq<char>,
)
    requires
        distinct_keys(a),
        distinct_keys(b),
        mapping(a) == mapping(b),
        single_of_kind(a, suffix),
    ensures
        target_of_kind(a, suffix) == target_of_kind(b, suffix),
{
    lemma_target_of_kind(a, suffix);
    lemma_target_of_kind(b, suffix);
    match target_of_kind(b, suffix) {
        Some(found) => {
            let j = choose|j: int| #[trigger]
                is_first_of_kind(b, suffix, j) && b[j].1.target == found;
            lemma_entry_is_found(b, j);
            assert(mapping(a).contains_key(b[j].0));
            let i = key_index(a, b[j].0);
            lemma_entry_is_found(a, i);
            assert(a[i].1 == mapping(a)[b[j].0]);
            assert(a[i].1 == b[j].1);
            assert(suffix.is_suffix_of(a[i].1.kind));
            match target_of_kind(a, suffix) {
                Some(other) => {
                    let k = choose|k: int| #[trigger]
                        is_first_of_kind(a, suffix, k) && a[k].1.target == other;
                    assert(k == i);
                },
                None => {},
            }
        },
        None => {
            match target_of_kind(a, suffix) {
                Some(other) => {
                    let k = choose|k: int| #[trigger]
                        is_first_of_kind(a, suffix, k) && a[k].1.target == other;
                    lemma_entry_is_found(a, k);
                    assert(mapping(b).contains_key(a[k].0));
                    let j = key_index(b, a[k].0);
                    lemma_entry_is_found(b, j);
                    assert(b[j].1 == mapping(b)[a[k].0]);
                    assert(suffix.is_suffix_of(b[j].1.kind));
                },
                None => {},
            }
        },
    }
}

/// Reads the tokens of a `.rels` part into `relations`. Each `Relationship` start element
/// stores its relationship under its id; a relationship of a kind that nothing asks for is
/// stored like any other. The tokenizer's read failure ends the reading with
/// `Error::XmlRead`, and is the only failure.
pub fn load_relations(tokens: &Vec<Token>, relations: &mut Table<Relation>) -> (r: Result<
    (),
    Error,
>)
    ensures
        final(relations)@ == relations_run(old(relations)@, views(tokens@)).0,
        r == if relations_run(old(relations)@, views(tokens@)).1 {
            Err::<(), Error>(Error::XmlRead)
        } else {
            Ok::<(), Error>(())
        },
{
    let mut i: usize = 0;
    assert(views(tokens@).take(0) =~= Seq::<TokenView>::empty());
    while i < tokens.len()
        invariant
            i <= tokens.len(),
            relations_run(old(relations)@, views(tokens@).take(i as int)) == (relations@, false),
        decreases tokens.len() - i,
    {
        let ghost upto = views(tokens@).take(i + 1);
        assert(upto.drop_last() =~= views(tokens@).take(i as int));
        assert(upto.last() == tokens@[i as int]@);
        match &tokens[i] {
            Token::Start { name, attributes } => {
                if same_text(name.as_str(), "Relationship") {
                    let id = find_attribute(attributes, "Id");
                    let target = strip_leading_slash(find_attribute(attributes, "Target").as_str());
                    let kind = find_attribute(attributes, "Type");
                    relations.insert(id, Relation { target, kind });
                }
            },
            Token::Failure => {
                proof {
                    lemma_relations_run_stops(old(relations)@, views(tokens@), i + 1);
                }
                return Err(Error::XmlRead);
            },
            _ => {},
        }
        i = i + 1;
    }
    assert(views(tokens@).take(i as int) =~= views(tokens@));
    Ok(())
}

/// The target of the first relationship whose kind ends with `suffix`.
pub fn find_target_of_kind(relations: &Table<Relation>, suffix: &str) -> (found: Option<String>)
    ensures
        match found {
            Some(target) => target_of_kind(relations@, suffix@) == Some(target@),
            None => target_of_kind(relations@, suffix@) is None,
        },
{
    let n = relations.len();
    let mut i: usize = 0;
    assert(relations@.skip(0) =~= relations@);
    while i < n
        invariant
            i <= n,
            n == relations@.len(),
            target_of_kind(relations@, suffix@) == target_of_kind(
                relations@.skip(i as int),
                suffix@,
            ),
        decreases n - i,
    {
        assert(relations@.skip(i as int).drop_first() =~= relations@.skip(i + 1));
        match relations.value(i) {
            Some(relation) => {
                if ends_with(relation.kind.as_str(), suffix) {
                    return Some(relation.target.clone());
                }
            },
            None => {},
        }
        i = i + 1;
    }
    None
}

/// The target of the relationship with the id `id`.
pub fn target_of_id(relations: &Table<Relation>, id: &str) -> (found: Option<String>)
    ensures
        match found {
            Some(target) => lookup(relations@, id@) matches Some(relation) && relation.target
                == target@,
            None => lookup(relations@, id@) is None,
        },
{
    match relations.get(id) {
        Some(relation) => Some(relation.target.clone()),
        None => None,
    }
}

} // verus!
