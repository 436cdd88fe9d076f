//! Objects whose members are all literals: the proof that parsing the
//! tokens of such an object gives back exactly the keys and values that
//! were written, whatever the order of the keys.

use crate::error::ParseError;
use crate::parser::{document, object_at, object_members, scalar_of, value_at};
use crate::tokenizer::Lexeme;
use crate::validator::{
    balanced, is_bracket_token, lemma_no_bracket_keeps_stack, lemma_pair_keeps_stack, open_after,
    Bracket,
};
use crate::value::{
    has_key, key_index, lemma_first_with_key, lemma_upsert_lookup, lookup, unique_keys, upsert,
    JsonModel, Members,
};
use vstd::prelude::*;

verus! {

/// A member as it is written: its key and the literal token of its value.
pub type Field = (Seq<char>, Lexeme);

/// Every field has a literal for its value.
pub open spec fn all_scalar(fields: Seq<Field>) -> bool {
    forall|i: int| 0 <= i < fields.len() ==> scalar_of(#[trigger] fields[i].1).is_some()
}

/// No key occurs twice among the fields.
pub open spec fn distinct_keys(fields: Seq<Field>) -> bool {
    forall|i: int, j: int|
        0 <= i < j < fields.len() ==> (#[trigger] fields[i]).0 != (#[trigger] fields[j]).0
}

/// The tokens of the fields, each written as key, colon and value, with a
/// comma between one field and the next.
pub open spec fn field_tokens(fields: Seq<Field>) -> Seq<Lexeme>
    decreases fields.len(),
{
    if fields.len() == 0 {
        Seq::empty()
    } else {
        let first = seq![Lexeme::String(fields[0].0), Lexeme::Colon, fields[0].1];
        if fields.len() == 1 {
            first
        } else {
            first + seq![Lexeme::Comma] + field_tokens(fields.drop_first())
        }
    }
}

/// The tokens of the object that has the fields `fields`, in their order.
pub open spec fn flat_object_tokens(fields: Seq<Field>) -> Seq<Lexeme> {
    seq![Lexeme::LeftCurlyBracket] + field_tokens(fields) + seq![Lexeme::RightCurlyBracket]
}

/// The keys and values of the fields, in their order.
pub open spec fn field_members(fields: Seq<Field>) -> Members {
    Seq::new(fields.len(), |i: int| (fields[i].0, scalar_of(fields[i].1).unwrap()))
}

/// `members` after each field has been set in turn.
pub open spec fn with_fields(members: Members, fields: Seq<Field>) -> Members
    decreases fields.len(),
{
    if fields.len() == 0 {
        members
    } else {
        with_fields(
            upsert(members, fields[0].0, scalar_of(fields[0].1).unwrap()),
            fields.drop_first(),
        )
    }
}

/// The length of `field_tokens`, and the absence of brackets in it.
pub proof fn lemma_field_tokens(fields: Seq<Field>)
    requires
        all_scalar(fields),
    ensures
        fields.len() > 0 ==> field_tokens(fields).len() == 4 * fields.len() - 1,
        fields.len() == 0 ==> field_tokens(fields).len() == 0,
        forall|i: int|
            0 <= i < field_tokens(fields).len() ==> !is_bracket_token(
                #[trigger] field_tokens(fields)[i],
            ),
    decreases fields.len(),
{
    if fields.len() > 1 {
        let rest = fields.drop_first();
        assert forall|i: int| 0 <= i < rest.len() implies scalar_of(
            #[trigger] rest[i].1,
        ).is_some() by {
            assert(rest[i] == fields[i + 1]);
        }
        lemma_field_tokens(rest);
    }
}

/// Where the tokens from `position` on are the tokens of `fields` and a
/// closing bracket, the members read there are `members` with each field
/// set in turn.
pub proof fn lemma_object_members_of_fields(
    tokens: Seq<Lexeme>,
    position: int,
    members: Members,
    fields: Seq<Field>,
)
    requires
        all_scalar(fields),
        fields.len() > 0,
        0 <= position,
        position + 4 * fields.len() <= tokens.len(),
        tokens.subrange(position, position + 4 * fields.len()) == field_tokens(fields) + seq![
            Lexeme::RightCurlyBracket,
        ],
    ensures
        object_members(tokens, position, members) == Ok::<(Members, nat), ParseError>(
            (with_fields(members, fields), (4 * fields.len()) as nat),
        ),
    decreases fields.len(),
{
    let part = tokens.subrange(position, position + 4 * fields.len());
    let rest = fields.drop_first();
    let value = scalar_of(fields[0].1).unwrap();
    let updated = upsert(members, fields[0].0, value);
    lemma_field_tokens(fields);
    assert(tokens[position] == part[0]);
    assert(tokens[position + 1] == part[1]);
    assert(tokens[position + 2] == part[2]);
    assert(tokens[position + 3] == part[3]);
    assert(scalar_of(fields[0].1).is_some());
    assert(value_at(tokens, position + 2) == Ok::<(JsonModel, nat), ParseError>((value, 1nat)));
    if fields.len() == 1 {
        assert(with_fields(updated, rest) == updated);
    } else {
        assert forall|i: int| 0 <= i < rest.len() implies scalar_of(
            #[trigger] rest[i].1,
        ).is_some() by {
            assert(rest[i] == fields[i + 1]);
        }
        lemma_field_tokens(rest);
        assert(tokens.subrange(position + 4, position + 4 + 4 * rest.len()) =~= field_tokens(rest)
            + seq![Lexeme::RightCurlyBracket]) by {
            assert forall|i: int| 0 <= i < 4 * rest.len() implies tokens[position + 4 + i] == (
            field_tokens(rest) + seq![Lexeme::RightCurlyBracket])[i] by {
                assert(tokens[position + 4 + i] == part[4 + i]);
            }
        }
        lemma_object_members_of_fields(tokens, position + 4, updated, rest);
    }
}

/// Fields with keys that differ from each other and from those of
/// `members` are added at the end, in their order.
pub proof fn lemma_with_distinct_fields(members: Members, fields: Seq<Field>)
    requires
        all_scalar(fields),
        distinct_keys(fields),
        forall|i: int| 0 <= i < fields.len() ==> !has_key(members, #[trigger] fields[i].0),
    ensures
        with_fields(members, fields) == members + field_members(fields),
    decreases fields.len(),
{
    if fields.len() == 0 {
        assert(members + field_members(fields) =~= members);
    } else {
        let rest = fields.drop_first();
        let value = scalar_of(fields[0].1).unwrap();
        let updated = upsert(members, fields[0].0, value);
        assert(!has_key(members, fields[0].0));
        assert(updated == members.push((fields[0].0, value)));
        assert forall|i: int| 0 <= i < rest.len() implies scalar_of(
            #[trigger] rest[i].1,
        ).is_some() by {
            assert(rest[i] == fields[i + 1]);
        }
        assert forall|i: int| 0 <= i < rest.len() implies !has_key(
            updated,
            #[trigger] rest[i].0,
        ) by {
            assert(rest[i] == fields[i + 1]);
            assert(fields[0].0 != fields[i + 1].0);
            assert(!has_key(members, fields[i + 1].0));
            lemma_upsert_lookup(members, fields[0].0, value, rest[i].0);
        }
        assert(distinct_keys(rest)) by {
            assert forall|i: int, j: int| 0 <= i < j < rest.len() implies (#[trigger] rest[i]).0
                != (#[trigger] rest[j]).0 by {
                assert(rest[i] == fields[i + 1]);
                assert(rest[j] == fields[j + 1]);
            }
        }
        lemma_with_distinct_fields(updated, rest);
        assert(updated + field_members(rest) =~= members + field_members(fields));
    }
}

/// Parsing the tokens of an object whose members are all literals gives
/// the object in which each field has been set in turn. Where no key comes
/// twice, its members are exactly the keys and values that were written:
/// every written key maps to its written value and no other key is there,
/// so that two documents with the same fields in different orders hold the
/// same pairs.
pub proof fn lemma_flat_object(fields: Seq<Field>)
    requires
        all_scalar(fields),
    ensures
        document(flat_object_tokens(fields)) == Ok::<JsonModel, ParseError>(
            JsonModel::Object(with_fields(Seq::empty(), fields)),
        ),
        distinct_keys(fields) ==> {
            &&& with_fields(Seq::empty(), fields) == field_members(fields)
            &&& unique_keys(field_members(fields))
            &&& forall|i: int|
                0 <= i < fields.len() ==> lookup(field_members(fields), #[trigger] fields[i].0)
                    == scalar_of(fields[i].1)
            &&& forall|key: Seq<char>|
                has_key(field_members(fields), key) ==> exists|i: int|
                    0 <= i < fields.len() && (#[trigger] fields[i]).0 == key
        },
{
    let tokens = flat_object_tokens(fields);
    let inner = field_tokens(fields);
    let none = Seq::<Bracket>::empty();
    lemma_field_tokens(fields);
    assert(balanced(tokens)) by {
        lemma_no_bracket_keeps_stack(none.push(Bracket::Curly), inner);
        assert(open_after(none, Seq::<Lexeme>::empty()) == Some(none));
        assert(none.push(Bracket::Curly).drop_last() =~= none);
        lemma_pair_keeps_stack(
            none,
            Lexeme::LeftCurlyBracket,
            Bracket::Curly,
            Lexeme::RightCurlyBracket,
            inner,
            Seq::empty(),
        );
        assert(tokens + Seq::<Lexeme>::empty() =~= tokens);
    }
    assert(tokens[0] == Lexeme::LeftCurlyBracket);
    if fields.len() == 0 {
        assert(tokens[1] == Lexeme::RightCurlyBracket);
        assert(object_at(tokens, 1, Seq::empty()) == Ok::<(Members, nat), ParseError>(
            (Seq::empty(), 1nat),
        ));
    } else {
        assert(tokens[1] == inner[0]);
        assert(tokens.subrange(1, 1 + 4 * (fields.len() as int)) =~= inner + seq![
            Lexeme::RightCurlyBracket,
        ]);
        lemma_object_members_of_fields(tokens, 1, Seq::empty(), fields);
    }
    if distinct_keys(fields) {
        let members = field_members(fields);
        assert forall|i: int| 0 <= i < fields.len() implies !has_key(
            Seq::<(Seq<char>, JsonModel)>::empty(),
            #[trigger] fields[i].0,
        ) by {}
        lemma_with_distinct_fields(Seq::empty(), fields);
        assert(Seq::<(Seq<char>, JsonModel)>::empty() + members =~= members);
        assert(unique_keys(members));
        assert forall|i: int| 0 <= i < fields.len() implies lookup(
            members,
            #[trigger] fields[i].0,
        ) == scalar_of(fields[i].1) by {
            assert(members[i].0 == fields[i].0);
            assert(has_key(members, fields[i].0));
            lemma_first_with_key(members, fields[i].0);
            let at = key_index(members, fields[i].0);
            if at != i {
                assert(members[at].0 == members[i].0);
            }
        }
        assert forall|key: Seq<char>| has_key(members, key) implies exists|i: int|
            0 <= i < fields.len() && (#[trigger] fields[i]).0 == key by {
            let at = choose|i: int| 0 <= i < members.len() && (#[trigger] members[i]).0 == key;
            assert(fields[at].0 == key);
        }
    }
}

/// Two objects of literal members that hold the same fields, each with
/// keys that differ from each other, are equal as values, in whatever order
/// the fields are written.
pub proof fn lemma_flat_objects_in_any_order(fields: Seq<Field>, shuffled: Seq<Field>)
    requires
        all_scalar(fields),
        all_scalar(shuffled),
        distinct_keys(fields),
        distinct_keys(shuffled),
        fields.len() == shuffled.len(),
        forall|i: int| 0 <= i < fields.len() ==> shuffled.contains(#[trigger] fields[i]),
    ensures
        document(flat_object_tokens(fields)) matches Ok(first) && document(
            flat_object_tokens(shuffled),
        ) matches Ok(second) && first.same_as(second),
{
    lemma_flat_object(fields);
    lemma_flat_object(shuffled);
    let first = field_members(fields);
    let second = field_members(shuffled);
    assert forall|i: int| 0 <= i < first.len() implies match lookup(
        second,
        (#[trigger] first[i]).0,
    ) {
        Some(value) => first[i].1.same_as(value),
        None => false,
    } by {
        assert(shuffled.contains(fields[i]));
        let j = choose|j: int| 0 <= j < shuffled.len() && shuffled[j] == fields[i];
        assert(second[j].0 == first[i].0);
        assert(lookup(second, shuffled[j].0) == scalar_of(shuffled[j].1));
        assert(scalar_of(fields[i].1).is_some());
    }
    assert(JsonModel::Object(first).same_as(JsonModel::Object(second)));
}

} // verus!
