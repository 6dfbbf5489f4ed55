//! What reaches a model and what is made of its reply, field by field.

use crate::assistant::exchange::{
    after_reply, answer_in, answer_to, block_says, blocks_say, first_question, for_anthropic,
    from_others, is_system, json_header, length_given, outcome, post_of, prompt_lifted, strict,
    system_prompts, wait_asked, wait_in, Move, Question,
};
use crate::assistant::{
    base_of, is_foundry, is_safe, names_the_format, url_of, Fault, Route, Shape,
};
use crate::json::{
    field, field_from, lemma_place_of, place_of, text_in, with_field, without_field, Figure, Tree,
};
use crate::text::{
    blank, decimal, ends_with, is_char, is_digit, joined, lemma_decimal, lemma_trimmed_already,
    lowercase, trim_back, trimmed, unsigned_value, whitespace,
};
use vstd::prelude::*;

verus! {

// -------------------------------------------------------------------- fields

proof fn lemma_field_push(
    fields: Seq<(Seq<char>, Tree)>,
    last: (Seq<char>, Tree),
    name: Seq<char>,
    i: int,
)
    requires
        0 <= i <= fields.len(),
    ensures
        field_from(fields.push(last), name, i) == match field_from(fields, name, i) {
            Some(value) => Some(value),
            None => if last.0 == name {
                Some(last.1)
            } else {
                None
            },
        },
    decreases fields.len() - i,
{
    let longer = fields.push(last);
    if i < fields.len() {
        assert(longer[i] == fields[i]);
        if fields[i].0 != name {
            lemma_field_push(fields, last, name, i + 1);
        }
    } else {
        assert(longer[i] == last);
        assert(field_from(longer, name, i + 1) is None);
    }
}

proof fn lemma_field_update(
    fields: Seq<(Seq<char>, Tree)>,
    at: int,
    value: Tree,
    name: Seq<char>,
    i: int,
)
    requires
        0 <= at < fields.len(),
        0 <= i,
        fields[at].0 != name,
    ensures
        field_from(fields.update(at, (fields[at].0, value)), name, i) == field_from(
            fields,
            name,
            i,
        ),
    decreases fields.len() - i,
{
    let changed = fields.update(at, (fields[at].0, value));
    if i < fields.len() {
        assert(i != at ==> changed[i] == fields[i]);
        if fields[i].0 != name {
            lemma_field_update(fields, at, value, name, i + 1);
        }
    }
}

proof fn lemma_field_set(
    fields: Seq<(Seq<char>, Tree)>,
    at: int,
    name: Seq<char>,
    value: Tree,
    i: int,
)
    requires
        0 <= i,
        place_of(fields, name, i) == Some(at),
    ensures
        field_from(fields.update(at, (name, value)), name, i) == Some(value),
    decreases fields.len() - i,
{
    lemma_place_of(fields, name, i);
    let changed = fields.update(at, (name, value));
    if i < at {
        assert(changed[i] == fields[i]);
        lemma_field_set(fields, at, name, value, i + 1);
    } else {
        assert(changed[i] == (name, value));
    }
}

/// Setting a field sets that field and no other.
proof fn lemma_with_field(
    fields: Seq<(Seq<char>, Tree)>,
    name: Seq<char>,
    value: Tree,
    other: Seq<char>,
)
    ensures
        field_from(with_field(fields, name, value), name, 0) == Some(value),
        other != name ==> field_from(with_field(fields, name, value), other, 0) == field_from(
            fields,
            other,
            0,
        ),
{
    lemma_place_of(fields, name, 0);
    match place_of(fields, name, 0) {
        Some(at) => {
            lemma_field_set(fields, at, name, value, 0);
            if other != name {
                lemma_field_update(fields, at, value, other, 0);
            }
        },
        None => {
            lemma_field_push(fields, (name, value), name, 0);
            lemma_field_push(fields, (name, value), other, 0);
        },
    }
}

/// Taking a field out takes out that field and no other.
proof fn lemma_without_field(fields: Seq<(Seq<char>, Tree)>, name: Seq<char>, other: Seq<char>)
    ensures
        field_from(without_field(fields, name), name, 0) is None,
        other != name ==> field_from(without_field(fields, name), other, 0) == field_from(
            fields,
            other,
            0,
        ),
    decreases fields.len(),
{
    reveal(Seq::filter);
    if fields.len() > 0 {
        let front = fields.drop_last();
        lemma_without_field(front, name, other);
        lemma_field_push(front, fields.last(), other, 0);
        assert(front.push(fields.last()) =~= fields);
        lemma_field_push(without_field(front, name), fields.last(), other, 0);
        lemma_field_push(without_field(front, name), fields.last(), name, 0);
    }
}

// ------------------------------------------------------------------- replies

/// The answer is where most services put it: in the message of the first choice.
pub proof fn law_the_first_choice_is_the_answer(text: Seq<char>, later: Seq<Tree>)
    ensures
        answer_in(
            Tree::Object(
                seq![
                    (
                        "choices"@,
                        Tree::List(
                            seq![
                                Tree::Object(
                                    seq![
                                        (
                                            "message"@,
                                            Tree::Object(seq![("content"@, Tree::Text(text))]),
                                        ),
                                    ],
                                ),
                            ] + later,
                        ),
                    ),
                ],
            ),
        ) == text,
{
    let content = seq![("content"@, Tree::Text(text))];
    let message = seq![("message"@, Tree::Object(content))];
    let list = seq![Tree::Object(message)] + later;
    let reply = seq![("choices"@, Tree::List(list))];
    assert(field_from(content, "content"@, 0) == Some(Tree::Text(text)));
    assert(field_from(message, "message"@, 0) == Some(Tree::Object(content)));
    assert(field_from(reply, "choices"@, 0) == Some(Tree::List(list)));
    assert(list[0] == Tree::Object(message));
}

/// A block of a reply: of a kind, and with a text.
pub open spec fn block(kind: Seq<char>, text: Seq<char>) -> Tree {
    Tree::Object(seq![("type"@, Tree::Text(kind)), ("text"@, Tree::Text(text))])
}

/// The texts of some blocks, but for what the model was thinking.
pub open spec fn told_in(blocks: Seq<(Seq<char>, Seq<char>)>) -> Seq<char>
    decreases blocks.len(),
{
    if blocks.len() == 0 {
        Seq::empty()
    } else if blocks[0].0 == "thinking"@ {
        told_in(blocks.skip(1))
    } else {
        blocks[0].1 + told_in(blocks.skip(1))
    }
}

pub open spec fn as_blocks(blocks: Seq<(Seq<char>, Seq<char>)>) -> Seq<Tree> {
    blocks.map_values(|b: (Seq<char>, Seq<char>)| block(b.0, b.1))
}

proof fn lemma_block_says(kind: Seq<char>, text: Seq<char>)
    ensures
        block_says(block(kind, text)) == if kind == "thinking"@ {
            Seq::empty()
        } else {
            text
        },
{
    reveal_strlit("type");
    reveal_strlit("text");
    assert("type"@[1] == 'y' && "text"@[1] == 'e');
    let list = seq![("type"@, Tree::Text(kind)), ("text"@, Tree::Text(text))];
    assert(field_from(list, "type"@, 0) == Some(Tree::Text(kind)));
    assert(field_from(list, "text"@, 1) == Some(Tree::Text(text)));
    assert(field_from(list, "text"@, 0) == Some(Tree::Text(text)));
}

proof fn lemma_blocks_say(before: Seq<Tree>, after: Seq<Tree>)
    ensures
        blocks_say(before + after) == blocks_say(before) + blocks_say(after),
    decreases after.len(),
{
    if after.len() == 0 {
        assert(before + after =~= before);
        assert(blocks_say(before) + blocks_say(after) =~= blocks_say(before));
    } else {
        lemma_blocks_say(before, after.drop_last());
        assert((before + after).drop_last() =~= before + after.drop_last());
        assert(blocks_say(before + after) =~= blocks_say(before) + blocks_say(after));
    }
}

proof fn lemma_told(blocks: Seq<(Seq<char>, Seq<char>)>)
    ensures
        blocks_say(as_blocks(blocks)) == told_in(blocks),
    decreases blocks.len(),
{
    if blocks.len() > 0 {
        let one = seq![block(blocks[0].0, blocks[0].1)];
        lemma_told(blocks.skip(1));
        lemma_block_says(blocks[0].0, blocks[0].1);
        assert(as_blocks(blocks) =~= one + as_blocks(blocks.skip(1)));
        lemma_blocks_say(one, as_blocks(blocks.skip(1)));
        assert(one.drop_last() =~= Seq::<Tree>::empty());
        assert(blocks_say(one.drop_last()).len() == 0);
        assert(one.last() == one[0]);
        assert(blocks_say(one) =~= block_says(one[0]));
        assert(blocks_say(as_blocks(blocks)) =~= told_in(blocks));
    } else {
        assert(as_blocks(blocks) =~= Seq::empty());
    }
}

/// The answer in a reply that comes in blocks is the text of every block, in
/// order, but for what the model was thinking.
pub proof fn law_blocks_are_told_without_the_thinking(blocks: Seq<(Seq<char>, Seq<char>)>)
    ensures
        answer_in(Tree::Object(seq![("content"@, Tree::List(as_blocks(blocks)))])) == told_in(
            blocks,
        ),
{
    reveal_strlit("content");
    reveal_strlit("choices");
    assert("content"@[1] == 'o' && "choices"@[1] == 'h');
    let list = seq![("content"@, Tree::List(as_blocks(blocks)))];
    assert(field_from(list, "choices"@, 1) is None);
    assert(field_from(list, "choices"@, 0) is None);
    assert(field_from(list, "content"@, 0) == Some(Tree::List(as_blocks(blocks))));
    lemma_told(blocks);
}

/// A wait is read under either of its names, as a number or as one written out.
pub proof fn law_a_wait_is_read(seconds: u64, snake: bool)
    ensures
        ({
            let name = if snake {
                "retry_after"@
            } else {
                "retryAfter"@
            };
            &&& wait_in(Tree::Object(seq![(name, Tree::Number(Figure::Unsigned(seconds)))]))
                == Some(seconds)
            &&& wait_in(Tree::Object(seq![(name, Tree::Text(decimal(seconds as nat)))])) == Some(
                seconds,
            )
        }),
{
    reveal_strlit("retry_after");
    reveal_strlit("retryAfter");
    assert("retry_after"@.len() == 11 && "retryAfter"@.len() == 10);
    let name = if snake {
        "retry_after"@
    } else {
        "retryAfter"@
    };
    let a = seq![(name, Tree::Number(Figure::Unsigned(seconds)))];
    let b = seq![(name, Tree::Text(decimal(seconds as nat)))];
    assert(field_from(a, name, 0) == Some(Tree::Number(Figure::Unsigned(seconds))));
    assert(field_from(b, name, 0) == Some(Tree::Text(decimal(seconds as nat))));
    if snake {
        assert(field_from(a, "retryAfter"@, 1) is None);
        assert(field_from(a, "retryAfter"@, 0) is None);
        assert(field_from(b, "retryAfter"@, 1) is None);
        assert(field_from(b, "retryAfter"@, 0) is None);
    }
    lemma_digits(seconds as nat);
}

proof fn lemma_digits(n: nat)
    requires
        n <= u64::MAX,
    ensures
        unsigned_value(decimal(n), u64::MAX as int) == Some(n as int),
{
    lemma_decimal(n);
    assert(is_digit(decimal(n)[0]));
}

/// Only what succeeded is an answer; a redirection is never followed, and what a
/// service refused is handed on with its status and its words.
pub proof fn law_only_success_is_an_answer(status: u16, payload: Seq<char>)
    ensures
        200 <= status <= 299 ==> outcome(status, payload) == Ok::<Seq<char>, Fault>(payload),
        300 <= status <= 399 ==> (outcome(status, payload) matches Err(fault) && fault
            is Unexpected),
        status < 200 || status >= 400 ==> outcome(status, payload) == Err::<Seq<char>, Fault>(
            Fault::Refused { status, payload },
        ),
{
}

/// A busy model is waited for three times, for as long as it asks but no longer
/// than a minute; where it does not say, for three seconds, then eight, then
/// twenty. The question stays as it is.
pub proof fn law_a_busy_model_is_waited_for(question: Question, payload: Seq<char>)
    requires
        question.waited < 3,
    ensures
        ({
            let (after, step) = after_reply(
                question,
                Err(Fault::Refused { status: 429, payload }),
            );
            &&& after.body == question.body
            &&& after.waited == question.waited + 1
            &&& match wait_asked(payload) {
                Some(n) => step == Move::Wait(
                    if n <= 60 {
                        n
                    } else {
                        60
                    },
                ),
                None => step == Move::Wait(
                    if question.waited == 0 {
                        3
                    } else if question.waited == 1 {
                        8
                    } else {
                        20
                    },
                ),
            }
        }),
{
}

/// Everything else ends the asking, except a refusal of the shape that was asked
/// for, which is tried once without it: an answer is handed back as it is read,
/// and a failure as it came.
pub proof fn law_everything_else_ends_the_asking(
    question: Question,
    reply: Result<Seq<char>, Fault>,
)
    requires
        reply matches Err(Fault::Refused { status, payload }) ==> (status != 429
            || question.waited >= 3) && (!question.shape_asked || question.retried
            || !names_the_format(lowercase(payload))),
    ensures
        after_reply(question, reply) == (
            question,
            match reply {
                Ok(payload) => Move::Done(answer_to(payload)),
                Err(fault) => Move::Done(Err(fault)),
            },
        ),
{
}

// ------------------------------------------------------------------- requests

/// What Anthropic is sent is what was asked: the messages of everybody but the
/// system, in order; what the system said in a field of its own, a blank line
/// between each; the length the caller wanted, or else 8192; and every other field
/// as it was.
pub proof fn law_anthropic_is_asked_the_same(
    fields: Seq<(Seq<char>, Tree)>,
    messages: Seq<Tree>,
    name: Seq<char>,
)
    requires
        field_from(fields, "messages"@, 0) == Some(Tree::List(messages)),
    ensures
        ({
            let sent = for_anthropic(Tree::Object(fields));
            &&& field(sent, "messages"@) == Some(
                Tree::List(messages.filter(|m: Tree| text_in(field(m, "role"@)) != Some("system"@))),
            )
            &&& system_prompts(messages).len() > 0 ==> field(sent, "system"@) == Some(
                Tree::Text(joined(system_prompts(messages), "\n\n"@)),
            )
            &&& field(sent, "max_tokens"@) == match field_from(fields, "max_tokens"@, 0) {
                Some(length) => Some(length),
                None => Some(Tree::Number(Figure::Unsigned(8192))),
            }
            &&& name != "messages"@ && name != "system"@ && name != "max_tokens"@ && name
                != "response_format"@ ==> field(sent, name) == field_from(fields, name, 0)
        }),
{
    reveal_strlit("messages");
    reveal_strlit("system");
    reveal_strlit("max_tokens");
    reveal_strlit("response_format");
    assert("messages"@.len() == 8 && "system"@.len() == 6 && "max_tokens"@.len() == 10
        && "response_format"@.len() == 15);
    let others = Tree::List(from_others(messages));
    assert((|m: Tree| !is_system(m)) =~= (|m: Tree| text_in(field(m, "role"@)) != Some("system"@)));
    let parted = with_field(fields, "messages"@, others);
    lemma_with_field(fields, "messages"@, others, "max_tokens"@);
    lemma_with_field(fields, "messages"@, others, name);
    let prompt = Tree::Text(joined(system_prompts(messages), "\n\n"@));
    lemma_with_field(parted, "system"@, prompt, "messages"@);
    lemma_with_field(parted, "system"@, prompt, "max_tokens"@);
    lemma_with_field(parted, "system"@, prompt, name);
    let lifted = prompt_lifted(fields);
    let length = Tree::Number(Figure::Unsigned(8192));
    lemma_with_field(lifted, "max_tokens"@, length, "messages"@);
    lemma_with_field(lifted, "max_tokens"@, length, "system"@);
    lemma_with_field(lifted, "max_tokens"@, length, name);
    let whole = length_given(lifted);
    lemma_without_field(whole, "response_format"@, "messages"@);
    lemma_without_field(whole, "response_format"@, "system"@);
    lemma_without_field(whole, "response_format"@, "max_tokens"@);
    lemma_without_field(whole, "response_format"@, name);
}

/// What every system message says is lifted, in order.
pub proof fn law_no_prompt_is_lost(before: Seq<Tree>, prompt: Seq<char>)
    ensures
        ({
            let message = Tree::Object(
                seq![("role"@, Tree::Text("system"@)), ("content"@, Tree::Text(prompt))],
            );
            system_prompts(before.push(message)) == system_prompts(before).push(prompt)
        }),
{
    reveal_strlit("role");
    reveal_strlit("content");
    assert("role"@.len() == 4 && "content"@.len() == 7);
    let list = seq![("role"@, Tree::Text("system"@)), ("content"@, Tree::Text(prompt))];
    let message = Tree::Object(list);
    assert(field_from(list, "role"@, 0) == Some(Tree::Text("system"@)));
    assert(field_from(list, "content"@, 1) == Some(Tree::Text(prompt)));
    assert(field_from(list, "content"@, 0) == Some(Tree::Text(prompt)));
    assert(before.push(message).drop_last() =~= before);
}

/// A question that must be answered in JSON says so, unless its caller has asked
/// for a shape of their own; every other field is as the caller wrote it.
pub proof fn law_json_is_asked_for(fields: Seq<(Seq<char>, Tree)>, name: Seq<char>)
    ensures
        field(strict(Tree::Object(fields)), "response_format"@) == match field_from(
            fields,
            "response_format"@,
            0,
        ) {
            Some(shape) => Some(shape),
            None => Some(Tree::Object(seq![("type"@, Tree::Text("json_object"@))])),
        },
        name != "response_format"@ ==> field(strict(Tree::Object(fields)), name) == field_from(
            fields,
            name,
            0,
        ),
{
    lemma_with_field(
        fields,
        "response_format"@,
        Tree::Object(seq![("type"@, Tree::Text("json_object"@))]),
        name,
    );
}

/// A church's own model is named where the caller named none, and the broker is
/// told of none; every other field is as the caller wrote it.
pub proof fn law_a_model_is_named(
    route: Route,
    fields: Seq<(Seq<char>, Tree)>,
    name: Seq<char>,
)
    ensures
        ({
            let asked = first_question(route, Tree::Object(fields), false);
            &&& field(asked.body, "model"@) == match (field_from(fields, "model"@, 0), route) {
                (Some(named), _) => Some(named),
                (None, Route::Own { deployment, .. }) => Some(Tree::Text(deployment.model@)),
                (None, _) => None,
            }
            &&& name != "model"@ ==> field(asked.body, name) == field_from(fields, name, 0)
            &&& asked.shape_asked == (field_from(fields, "response_format"@, 0) is Some)
            &&& !asked.retried
            &&& asked.waited == 0
        }),
{
    if let Route::Own { deployment, .. } = route {
        lemma_with_field(fields, "model"@, Tree::Text(deployment.model@), name);
    }
}

/// The key goes with the request in the header that its service reads, and nothing
/// is sent to an address in clear.
pub proof fn law_the_key_goes_where_it_is_read(route: Route, body: Tree)
    ensures
        match (route, post_of(route, body)) {
            (Route::Own { deployment, key }, Ok(post)) => {
                &&& is_safe(deployment.endpoint@)
                &&& post.headers.contains(("content-type"@, "application/json"@))
                &&& match deployment.shape {
                    Shape::Azure => post.bearer == Some(key@) && post.headers.contains(
                        ("api-key"@, key@),
                    ),
                    Shape::OpenAi => post.bearer == Some(key@) && post.headers.len() == 1,
                    Shape::Anthropic => post.bearer is None && post.headers.contains(
                        ("x-api-key"@, key@),
                    ) && post.headers.contains(("anthropic-version"@, "2023-06-01"@)),
                }
            },
            (Route::Own { deployment, .. }, Err(fault)) => !is_safe(deployment.endpoint@) && fault
                is Unexpected,
            (Route::Hosted { device_token, .. }, Ok(post)) => {
                &&& post.bearer == Some(device_token@)
                &&& post.headers == seq![("content-type"@, "application/json"@)]
                &&& post.body == body
            },
            (Route::Hosted { .. }, Err(_)) => false,
        },
{
    if let Ok(post) = post_of(route, body) {
        assert(post.headers[0] == post.headers.first());
        assert(post.headers[post.headers.len() - 1] == json_header());
        if post.headers.len() == 3 {
            assert(post.headers[1].0 == "anthropic-version"@);
        }
    }
}

/// An address is completed with what a church left out of it, and with no more: a
/// slash at its end makes no difference, and what was typed out in full stays.
pub proof fn law_an_address_is_completed(base: Seq<char>, slash: bool, version: Seq<char>)
    requires
        base.len() > 0,
        !whitespace(base[0]),
        !whitespace(base.last()),
        base.last() != '/',
    ensures
        ({
            let typed = if slash {
                base + seq!['/']
            } else {
                base
            };
            let completions = if ends_with(base, "/chat/completions"@) {
                base
            } else {
                base + "/chat/completions"@
            };
            &&& url_of(typed, version, Shape::Anthropic) == if ends_with(base, "/messages"@) {
                base
            } else if ends_with(base, "/v1"@) {
                base + "/messages"@
            } else {
                base + "/v1/messages"@
            }
            &&& !is_foundry(base) ==> url_of(typed, version, Shape::OpenAi) == completions
            &&& !is_foundry(base) && blank(version) ==> url_of(typed, version, Shape::Azure)
                == completions + "?api-version="@ + "2024-05-01-preview"@
            &&& !is_foundry(base) && !blank(version) ==> url_of(typed, version, Shape::Azure)
                == completions + "?api-version="@ + trimmed(version)
        }),
{
    let drop = is_char('/');
    let typed = if slash {
        base + seq!['/']
    } else {
        base
    };
    assert(typed[0] == base[0]);
    lemma_trimmed_already(typed);
    assert(!drop(base.last()));
    assert(trim_back(base, drop) == base);
    if slash {
        assert(typed.last() == '/');
        assert(typed.drop_last() =~= base);
    }
    assert(base_of(typed) == base);
}

} // verus!
