//! The canonical form tells sequences of actions apart: two sequences
//! without floating-point arguments that are written alike are the same.

use crate::actions::{
    action_json, argument_json, arguments_json, bool_text, canonical, capture_json, comma_joined,
    escaped, quoted, ActionView, ArgumentView, CaptureView,
};
use crate::numbers::{
    all_digits, decimal, digit_char, digit_value, digits, digits_value,
};
use vstd::prelude::*;

verus! {

/// What stands behind a common beginning is the same on both sides.
pub proof fn lemma_cancel_beginning(beginning: Seq<char>, x: Seq<char>, y: Seq<char>)
    requires
        beginning + x == beginning + y,
    ensures
        x == y,
{
    assert(x =~= (beginning + x).subrange(beginning.len() as int, (beginning + x).len() as int));
    assert(y =~= (beginning + y).subrange(beginning.len() as int, (beginning + y).len() as int));
}

/// Two texts that are alike up to the shorter one's length and as long as
/// each other, followed by what makes the wholes alike, are alike, and so
/// is what follows them.
pub proof fn lemma_split_alike(a: Seq<char>, x: Seq<char>, b: Seq<char>, y: Seq<char>)
    requires
        a + x == b + y,
        a.len() == b.len(),
    ensures
        a == b,
        x == y,
{
    assert(a =~= (a + x).subrange(0, a.len() as int));
    assert(b =~= (b + y).subrange(0, b.len() as int));
    lemma_cancel_beginning(a, x, y);
}

/// How one character is written inside quotes.
pub open spec fn escaped_char(c: char) -> Seq<char> {
    if c == '"' || c == '\\' {
        seq!['\\', c]
    } else {
        seq![c]
    }
}

/// An escaped text is its characters, escaped one by one.
pub proof fn lemma_escaped_first(s: Seq<char>)
    requires
        s.len() > 0,
    ensures
        escaped(s) == escaped_char(s[0]) + escaped(s.drop_first()),
    decreases s.len(),
{
    let last = escaped_char(s.last());
    assert(escaped(s) =~= escaped(s.drop_last()) + last);
    if s.len() == 1 {
        assert(s.drop_last() =~= Seq::<char>::empty());
        assert(s.drop_first() =~= Seq::<char>::empty());
        assert(escaped(s) =~= escaped_char(s[0]) + escaped(s.drop_first()));
    } else {
        lemma_escaped_first(s.drop_last());
        let rest = s.drop_first();
        assert(rest.drop_last() =~= s.drop_last().drop_first());
        assert(rest.last() == s.last());
        assert(escaped(rest) =~= escaped(rest.drop_last()) + last);
        assert(s.drop_last()[0] == s[0]);
        assert(escaped(s) =~= escaped_char(s[0]) + escaped(rest));
    }
}

/// An escaped text holds no quote that ends it: what is written the same
/// up to the closing quote is the same text, and what follows the quote is
/// the same.
pub proof fn lemma_escaped_ends(s: Seq<char>, r: Seq<char>, t: Seq<char>, q: Seq<char>)
    requires
        escaped(s) + seq!['"'] + r == escaped(t) + seq!['"'] + q,
    ensures
        s == t,
        r == q,
    decreases s.len() + t.len(),
{
    let left = escaped(s) + seq!['"'] + r;
    let right = escaped(t) + seq!['"'] + q;
    if s.len() == 0 && t.len() == 0 {
        assert(escaped(s) =~= Seq::<char>::empty());
        assert(escaped(t) =~= Seq::<char>::empty());
        assert(left =~= seq!['"'] + r);
        assert(right =~= seq!['"'] + q);
        lemma_cancel_beginning(seq!['"'], r, q);
        assert(s =~= t);
    } else if s.len() == 0 {
        lemma_escaped_first(t);
        assert(escaped(s) =~= Seq::<char>::empty());
        assert(left[0] == '"');
        assert(right[0] == escaped_char(t[0])[0]);
        assert(false);
    } else if t.len() == 0 {
        lemma_escaped_first(s);
        assert(escaped(t) =~= Seq::<char>::empty());
        assert(right[0] == '"');
        assert(left[0] == escaped_char(s[0])[0]);
        assert(false);
    } else {
        lemma_escaped_first(s);
        lemma_escaped_first(t);
        let c = s[0];
        let d = t[0];
        let s_rest = escaped(s.drop_first()) + seq!['"'] + r;
        let t_rest = escaped(t.drop_first()) + seq!['"'] + q;
        assert(left =~= escaped_char(c) + s_rest);
        assert(right =~= escaped_char(d) + t_rest);
        assert(left[0] == escaped_char(c)[0]);
        assert(right[0] == escaped_char(d)[0]);
        let c_special = c == '"' || c == '\\';
        let d_special = d == '"' || d == '\\';
        if c_special {
            assert(left[0] == '\\');
            assert(d_special);
            assert(left[1] == c);
            assert(right[1] == d);
        }
        if d_special {
            assert(right[0] == '\\');
            assert(c_special);
        }
        assert(c == d);
        lemma_cancel_beginning(escaped_char(c), s_rest, t_rest);
        lemma_escaped_ends(s.drop_first(), r, t.drop_first(), q);
        assert(s =~= seq![c] + s.drop_first());
        assert(t =~= seq![d] + t.drop_first());
    }
}

/// A quoted text ends at its closing quote: what is written the same is the
/// same text, and what follows is the same.
pub proof fn lemma_quoted_ends(s: Seq<char>, r: Seq<char>, t: Seq<char>, q: Seq<char>)
    requires
        quoted(s) + r == quoted(t) + q,
    ensures
        s == t,
        r == q,
{
    let opening = seq!['"'];
    assert(quoted(s) + r =~= opening + (escaped(s) + seq!['"'] + r));
    assert(quoted(t) + q =~= opening + (escaped(t) + seq!['"'] + q));
    lemma_cancel_beginning(opening, escaped(s) + seq!['"'] + r, escaped(t) + seq!['"'] + q);
    lemma_escaped_ends(s, r, t, q);
}

/// The numeral of a number is digits, one at least, that denote the
/// number.
pub proof fn lemma_digits_denote(n: nat)
    ensures
        digits(n).len() >= 1,
        all_digits(digits(n)),
        digits_value(digits(n)) == n,
    decreases n,
{
    if n < 10 {
        let one = seq![digit_char(n as int)];
        assert(one.drop_last() =~= Seq::<char>::empty());
        assert(digits_value(one.drop_last()) == 0);
        assert(digit_value(digit_char(n as int)) == Some(n as int));
        assert(one.last() == digit_char(n as int));
        assert(digits_value(one) == n);
    } else {
        lemma_digits_denote(n / 10);
        let before = digits(n / 10);
        let last = digit_char((n % 10) as int);
        let all = before.push(last);
        assert(digit_value(last) == Some((n % 10) as int));
        assert(all.drop_last() =~= before);
        assert(all.last() == last);
        assert forall|k: int| 0 <= k < all.len() implies (#[trigger] digit_value(all[k])) is Some by {
            if k < before.len() {
                assert(all[k] == before[k]);
            }
        }
        assert(digits_value(all) == digits_value(before) * 10 + (n % 10));
    }
}

/// A run of digits ends where a character follows that is no digit: two
/// runs that are written the same up to such a character are the same, and
/// so is what follows.
pub proof fn lemma_digit_runs_end(a: Seq<char>, r: Seq<char>, b: Seq<char>, q: Seq<char>)
    requires
        a + r == b + q,
        all_digits(a),
        all_digits(b),
        r.len() > 0 && digit_value(r[0]) is None,
        q.len() > 0 && digit_value(q[0]) is None,
    ensures
        a == b,
        r == q,
{
    if a.len() < b.len() {
        assert((a + r)[a.len() as int] == r[0]);
        assert((b + q)[a.len() as int] == b[a.len() as int]);
        assert(digit_value(b[a.len() as int]) is Some);
        assert(false);
    }
    if b.len() < a.len() {
        assert((b + q)[b.len() as int] == q[0]);
        assert((a + r)[b.len() as int] == a[b.len() as int]);
        assert(digit_value(a[b.len() as int]) is Some);
        assert(false);
    }
    lemma_split_alike(a, r, b, q);
}

/// The numeral of an integer ends where a character follows that is no
/// digit: two numerals that are written the same up to such a character
/// denote the same integer, and what follows is the same.
pub proof fn lemma_decimal_ends(i: int, r: Seq<char>, j: int, q: Seq<char>)
    requires
        decimal(i) + r == decimal(j) + q,
        r.len() > 0 && digit_value(r[0]) is None,
        q.len() > 0 && digit_value(q[0]) is None,
    ensures
        i == j,
        r == q,
{
    let minus = seq!['-'];
    let a = if i < 0 {
        digits((-i) as nat)
    } else {
        digits(i as nat)
    };
    let b = if j < 0 {
        digits((-j) as nat)
    } else {
        digits(j as nat)
    };
    lemma_digits_denote(if i < 0 {
        (-i) as nat
    } else {
        i as nat
    });
    lemma_digits_denote(if j < 0 {
        (-j) as nat
    } else {
        j as nat
    });
    assert(digit_value('-') is None);
    assert(digit_value(a[0]) is Some);
    assert(digit_value(b[0]) is Some);
    if i < 0 && j < 0 {
        assert(decimal(i) + r =~= minus + (a + r));
        assert(decimal(j) + q =~= minus + (b + q));
        lemma_cancel_beginning(minus, a + r, b + q);
        lemma_digit_runs_end(a, r, b, q);
    } else if i < 0 {
        assert((decimal(i) + r)[0] == '-');
        assert((decimal(j) + q)[0] == b[0]);
        assert(false);
    } else if j < 0 {
        assert((decimal(j) + q)[0] == '-');
        assert((decimal(i) + r)[0] == a[0]);
        assert(false);
    } else {
        lemma_digit_runs_end(a, r, b, q);
    }
}

/// The characters that the written forms begin with.
proof fn lemma_literals()
    ensures
        "{\"name\": "@.len() > 0 && "{\"name\": "@[0] == '{',
        ", \"instance\": "@.len() > 0 && ", \"instance\": "@[0] == ',',
        ", \"postfix\": "@.len() > 0 && ", \"postfix\": "@[0] == ',',
        ", \"arguments\": ["@.len() > 0,
        "]}"@.len() > 0 && "]}"@[0] == ']',
        ", "@.len() > 0 && ", "@[0] == ',',
        "true"@.len() == 4 && "true"@[0] == 't',
        "false"@.len() == 5 && "false"@[0] == 'f',
{
    reveal_strlit("{\"name\": ");
    reveal_strlit(", \"instance\": ");
    reveal_strlit(", \"postfix\": ");
    reveal_strlit(", \"arguments\": [");
    reveal_strlit("]}");
    reveal_strlit(", ");
    reveal_strlit("true");
    reveal_strlit("false");
}

/// What follows a capture's instance: the postfix as a member, where there
/// is one, and the closing brace.
pub open spec fn capture_tail(c: CaptureView) -> Seq<char> {
    (if c.postfix.len() > 0 {
        ", \"postfix\": "@ + quoted(c.postfix)
    } else {
        Seq::empty()
    }) + seq!['}']
}

/// A capture's written form ends at its closing brace: two captures that
/// are written the same are the same, and what follows is the same.
pub proof fn lemma_capture_ends(c: CaptureView, r: Seq<char>, d: CaptureView, q: Seq<char>)
    requires
        capture_json(c) + r == capture_json(d) + q,
    ensures
        c == d,
        r == q,
{
    lemma_literals();
    let open = "{\"name\": "@;
    let instance = ", \"instance\": "@;
    let postfix = ", \"postfix\": "@;
    let close = seq!['}'];
    let c_after_number = capture_tail(c) + r;
    let d_after_number = capture_tail(d) + q;
    let c_after_name = instance + (decimal(c.instance) + c_after_number);
    let d_after_name = instance + (decimal(d.instance) + d_after_number);
    assert(capture_json(c) + r =~= open + (quoted(c.name) + c_after_name));
    assert(capture_json(d) + q =~= open + (quoted(d.name) + d_after_name));
    lemma_cancel_beginning(open, quoted(c.name) + c_after_name, quoted(d.name) + d_after_name);
    lemma_quoted_ends(c.name, c_after_name, d.name, d_after_name);
    lemma_cancel_beginning(
        instance,
        decimal(c.instance) + c_after_number,
        decimal(d.instance) + d_after_number,
    );
    assert(c_after_number[0] == if c.postfix.len() > 0 {
        ','
    } else {
        '}'
    });
    assert(d_after_number[0] == if d.postfix.len() > 0 {
        ','
    } else {
        '}'
    });
    lemma_decimal_ends(c.instance, c_after_number, d.instance, d_after_number);
    if c.postfix.len() > 0 && d.postfix.len() > 0 {
        assert(c_after_number =~= postfix + (quoted(c.postfix) + (close + r)));
        assert(d_after_number =~= postfix + (quoted(d.postfix) + (close + q)));
        lemma_cancel_beginning(
            postfix,
            quoted(c.postfix) + (close + r),
            quoted(d.postfix) + (close + q),
        );
        lemma_quoted_ends(c.postfix, close + r, d.postfix, close + q);
        lemma_cancel_beginning(close, r, q);
    } else if c.postfix.len() == 0 && d.postfix.len() == 0 {
        assert(c_after_number =~= close + r);
        assert(d_after_number =~= close + q);
        lemma_cancel_beginning(close, r, q);
        assert(c.postfix =~= d.postfix);
    } else {
        assert(false);
    }
}

/// The argument is no floating-point number.
pub open spec fn is_no_float(a: ArgumentView) -> bool {
    !(a is Float)
}

/// The first character of an argument's written form tells what kind of
/// argument it is.
proof fn lemma_argument_begins(a: ArgumentView, r: Seq<char>)
    requires
        is_no_float(a),
    ensures
        (argument_json(a) + r).len() > 0,
        match a {
            ArgumentView::Text(_) => (argument_json(a) + r)[0] == '"',
            ArgumentView::Int(_) => (argument_json(a) + r)[0] == '-' || digit_value(
                (argument_json(a) + r)[0],
            ) is Some,
            ArgumentView::Bool(b) => (argument_json(a) + r)[0] == if b {
                't'
            } else {
                'f'
            },
            ArgumentView::Float(_) => true,
            ArgumentView::Capture(_) => (argument_json(a) + r)[0] == '{',
        },
{
    lemma_literals();
    match a {
        ArgumentView::Text(s) => {
            assert(quoted(s)[0] == '"');
        },
        ArgumentView::Int(i) => {
            if i < 0 {
                assert(decimal(i)[0] == '-');
            } else {
                lemma_digits_denote(i as nat);
                assert(digit_value(decimal(i)[0]) is Some);
            }
        },
        ArgumentView::Bool(b) => {},
        ArgumentView::Float(_) => {},
        ArgumentView::Capture(c) => {
            assert(capture_json(c)[0] == '{');
        },
    }
}

/// An argument's written form ends before a character that is no digit:
/// two arguments, neither a floating-point number, that are written the
/// same up to such a character are the same, and what follows is the same.
pub proof fn lemma_argument_ends(a: ArgumentView, r: Seq<char>, b: ArgumentView, q: Seq<char>)
    requires
        is_no_float(a),
        is_no_float(b),
        argument_json(a) + r == argument_json(b) + q,
        r.len() > 0 && digit_value(r[0]) is None,
        q.len() > 0 && digit_value(q[0]) is None,
    ensures
        a == b,
        r == q,
{
    lemma_literals();
    lemma_argument_begins(a, r);
    lemma_argument_begins(b, q);
    assert(digit_value('"') is None && digit_value('t') is None && digit_value('f') is None
        && digit_value('{') is None && digit_value('-') is None);
    match a {
        ArgumentView::Text(s) => {
            assert(b is Text);
            lemma_quoted_ends(s, r, b->Text_0, q);
        },
        ArgumentView::Int(i) => {
            assert(b is Int);
            lemma_decimal_ends(i, r, b->Int_0, q);
        },
        ArgumentView::Bool(x) => {
            assert(b is Bool);
            assert(x == b->Bool_0);
            lemma_cancel_beginning(bool_text(x), r, q);
        },
        ArgumentView::Float(_) => {},
        ArgumentView::Capture(c) => {
            assert(b is Capture);
            lemma_capture_ends(c, r, b->Capture_0, q);
        },
    }
}

/// Joined texts are the first text and, behind a comma, the others joined.
pub proof fn lemma_joined_first(items: Seq<Seq<char>>)
    requires
        items.len() > 0,
    ensures
        comma_joined(items) == items[0] + (if items.len() > 1 {
            ", "@ + comma_joined(items.drop_first())
        } else {
            Seq::empty()
        }),
    decreases items.len(),
{
    if items.len() == 1 {
        assert(comma_joined(items) =~= items[0] + Seq::<char>::empty());
    } else {
        let rest = items.drop_first();
        let front = items.drop_last();
        lemma_joined_first(front);
        assert(front[0] == items[0]);
        assert(rest.last() == items.last());
        if items.len() == 2 {
            assert(rest.len() == 1);
            assert(comma_joined(rest) == rest[0]);
            assert(rest[0] == items.last());
            assert(comma_joined(front) =~= items[0]);
            assert(comma_joined(items) =~= items[0] + (", "@ + comma_joined(rest)));
        } else {
            assert(rest.drop_last() =~= front.drop_first());
            assert(comma_joined(rest) == comma_joined(rest.drop_last()) + ", "@ + rest.last());
            assert(comma_joined(items) =~= items[0] + (", "@ + comma_joined(rest)));
        }
    }
}

/// No argument is a floating-point number.
pub open spec fn has_no_float(arguments: Seq<ArgumentView>) -> bool {
    forall|k: int| 0 <= k < arguments.len() ==> is_no_float(#[trigger] arguments[k])
}

/// A list of arguments as it is written, with its closing bracket and what
/// follows.
pub open spec fn list_text(arguments: Seq<ArgumentView>, r: Seq<char>) -> Seq<char> {
    comma_joined(arguments_json(arguments)) + "]}"@ + r
}

/// What follows the first argument of a list: a comma and the other
/// arguments, or the closing bracket where there is no other.
pub open spec fn list_rest(arguments: Seq<ArgumentView>, r: Seq<char>) -> Seq<char> {
    if arguments.len() > 1 {
        ", "@ + list_text(arguments.drop_first(), r)
    } else {
        "]}"@ + r
    }
}

/// A written list is the closing bracket where it is empty, and else its
/// first argument and what follows it, which begins with a comma or with
/// the bracket.
proof fn lemma_list_unfolds(arguments: Seq<ArgumentView>, r: Seq<char>)
    ensures
        arguments.len() == 0 ==> list_text(arguments, r) == "]}"@ + r,
        arguments.len() > 0 ==> list_text(arguments, r) == argument_json(arguments[0]) + list_rest(
            arguments,
            r,
        ),
        list_rest(arguments, r).len() > 0,
        list_rest(arguments, r)[0] == if arguments.len() > 1 {
            ','
        } else {
            ']'
        },
{
    lemma_literals();
    let close = "]}"@;
    let comma = ", "@;
    if arguments.len() == 0 {
        assert(comma_joined(arguments_json(arguments)) =~= Seq::<char>::empty());
        assert(list_text(arguments, r) =~= close + r);
    } else {
        lemma_joined_first(arguments_json(arguments));
        let others = arguments.drop_first();
        assert(arguments_json(arguments).drop_first() =~= arguments_json(others));
        assert(arguments_json(arguments)[0] == argument_json(arguments[0]));
        if arguments.len() > 1 {
            assert(list_text(arguments, r) =~= argument_json(arguments[0]) + (comma + (
            comma_joined(arguments_json(others)) + close + r)));
        } else {
            assert(list_text(arguments, r) =~= argument_json(arguments[0]) + (close + r));
        }
    }
}

/// The arguments behind the first are no floating-point numbers where none
/// is.
proof fn lemma_others_have_no_float(arguments: Seq<ArgumentView>)
    requires
        has_no_float(arguments),
        arguments.len() > 0,
    ensures
        has_no_float(arguments.drop_first()),
        is_no_float(arguments[0]),
{
    let others = arguments.drop_first();
    assert forall|k: int| 0 <= k < others.len() implies is_no_float(#[trigger] others[k]) by {
        assert(others[k] == arguments[k + 1]);
    }
}

/// A list of arguments ends at its closing bracket: two lists without
/// floating-point numbers that are written the same are the same, and what
/// follows is the same.
pub proof fn lemma_arguments_end(
    a: Seq<ArgumentView>,
    r: Seq<char>,
    b: Seq<ArgumentView>,
    q: Seq<char>,
)
    requires
        has_no_float(a),
        has_no_float(b),
        list_text(a, r) == list_text(b, q),
    ensures
        a == b,
        r == q,
    decreases a.len() + b.len(),
{
    lemma_literals();
    lemma_list_unfolds(a, r);
    lemma_list_unfolds(b, q);
    let close = "]}"@;
    let comma = ", "@;
    assert(digit_value(']') is None && digit_value(',') is None);
    if a.len() == 0 && b.len() == 0 {
        lemma_cancel_beginning(close, r, q);
        assert(a =~= b);
    } else if a.len() == 0 {
        lemma_others_have_no_float(b);
        lemma_argument_begins(b[0], list_rest(b, q));
        assert(list_text(a, r)[0] == ']');
        assert(false);
    } else if b.len() == 0 {
        lemma_others_have_no_float(a);
        lemma_argument_begins(a[0], list_rest(a, r));
        assert(list_text(b, q)[0] == ']');
        assert(false);
    } else {
        lemma_others_have_no_float(a);
        lemma_others_have_no_float(b);
        lemma_argument_ends(a[0], list_rest(a, r), b[0], list_rest(b, q));
        let a_others = a.drop_first();
        let b_others = b.drop_first();
        if a.len() > 1 && b.len() > 1 {
            lemma_cancel_beginning(comma, list_text(a_others, r), list_text(b_others, q));
            lemma_arguments_end(a_others, r, b_others, q);
        } else if a.len() == 1 && b.len() == 1 {
            lemma_cancel_beginning(close, r, q);
            assert(a_others =~= b_others);
        } else {
            assert(false);
        }
        assert(a =~= seq![a[0]] + a_others);
        assert(b =~= seq![b[0]] + b_others);
    }
}

/// An action's written form ends at its closing brace: two actions without
/// floating-point arguments that are written the same are the same, and
/// what follows is the same.
pub proof fn lemma_action_ends(a: ActionView, r: Seq<char>, b: ActionView, q: Seq<char>)
    requires
        has_no_float(a.arguments),
        has_no_float(b.arguments),
        action_json(a) + r == action_json(b) + q,
    ensures
        a == b,
        r == q,
{
    lemma_literals();
    let open = "{\"name\": "@;
    let arguments = ", \"arguments\": ["@;
    let close = "]}"@;
    let a_list = list_text(a.arguments, r);
    let b_list = list_text(b.arguments, q);
    assert(action_json(a) + r =~= open + (quoted(a.name) + (arguments + a_list)));
    assert(action_json(b) + q =~= open + (quoted(b.name) + (arguments + b_list)));
    lemma_cancel_beginning(
        open,
        quoted(a.name) + (arguments + a_list),
        quoted(b.name) + (arguments + b_list),
    );
    lemma_quoted_ends(a.name, arguments + a_list, b.name, arguments + b_list);
    lemma_cancel_beginning(arguments, a_list, b_list);
    lemma_arguments_end(a.arguments, r, b.arguments, q);
}

/// The canonical form is the first action's written form and, behind it,
/// the canonical form of the others.
pub proof fn lemma_canonical_first(actions: Seq<ActionView>)
    requires
        actions.len() > 0,
    ensures
        canonical(actions) == action_json(actions[0]) + canonical(actions.drop_first()),
    decreases actions.len(),
{
    if actions.len() == 1 {
        assert(actions.drop_last() =~= Seq::<ActionView>::empty());
        assert(actions.drop_first() =~= Seq::<ActionView>::empty());
        assert(canonical(actions) =~= action_json(actions[0]) + canonical(actions.drop_first()));
    } else {
        let front = actions.drop_last();
        let rest = actions.drop_first();
        lemma_canonical_first(front);
        assert(front[0] == actions[0]);
        assert(rest.drop_last() =~= front.drop_first());
        assert(rest.last() == actions.last());
        assert(canonical(actions) =~= action_json(actions[0]) + canonical(rest));
    }
}

/// No action has a floating-point argument.
pub open spec fn is_float_free(actions: Seq<ActionView>) -> bool {
    forall|k: int| 0 <= k < actions.len() ==> has_no_float((#[trigger] actions[k]).arguments)
}

/// The canonical form is lossless: two sequences of actions without
/// floating-point arguments that have one canonical form are the same
/// sequence.
pub proof fn lemma_canonical_is_injective(a: Seq<ActionView>, b: Seq<ActionView>)
    requires
        is_float_free(a),
        is_float_free(b),
        canonical(a) == canonical(b),
    ensures
        a == b,
    decreases a.len() + b.len(),
{
    lemma_literals();
    if a.len() == 0 && b.len() == 0 {
        assert(a =~= b);
    } else if a.len() == 0 {
        lemma_canonical_first(b);
        assert(action_json(b[0]).len() > 0);
        assert(false);
    } else if b.len() == 0 {
        lemma_canonical_first(a);
        assert(action_json(a[0]).len() > 0);
        assert(false);
    } else {
        lemma_canonical_first(a);
        lemma_canonical_first(b);
        let a_others = a.drop_first();
        let b_others = b.drop_first();
        lemma_action_ends(a[0], canonical(a_others), b[0], canonical(b_others));
        assert(is_float_free(a_others) && is_float_free(b_others)) by {
            assert forall|k: int| 0 <= k < a_others.len() implies has_no_float(
                (#[trigger] a_others[k]).arguments,
            ) by {
                assert(a_others[k] == a[k + 1]);
            }
            assert forall|k: int| 0 <= k < b_others.len() implies has_no_float(
                (#[trigger] b_others[k]).arguments,
            ) by {
                assert(b_others[k] == b[k + 1]);
            }
        }
        lemma_canonical_is_injective(a_others, b_others);
        assert(a =~= seq![a[0]] + a_others);
        assert(b =~= seq![b[0]] + b_others);
    }
}

} // verus!
