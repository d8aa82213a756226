//! The one-shot interactive command machine: a line of input is tokenized
//! (lowercase, commas stripped, split on whitespace, empties dropped) and
//! routed to exactly one command; help and invalid input loop back for
//! another line, everything else ends the interaction.
use crate::tags::views_of;
use crate::text::{
    all_digits, dec_val, is_digit, is_space, lower_seq, lower_str, max_numeral_len, parse_number,
    push_char, spec_is_digit, spec_is_space, str_eq,
};
use vstd::prelude::*;

verus! {

/// The input with every comma removed.
pub open spec fn strip_commas(s: Seq<char>) -> Seq<char>
    decreases s.len(),
{
    if s.len() == 0 {
        Seq::empty()
    } else if s.last() == ',' {
        strip_commas(s.drop_last())
    } else {
        strip_commas(s.drop_last()).push(s.last())
    }
}

/// The whitespace-separated fields of the input, empties included.
pub open spec fn ws_fields(s: Seq<char>) -> Seq<Seq<char>>
    decreases s.len(),
{
    if s.len() == 0 {
        seq![Seq::<char>::empty()]
    } else if spec_is_space(s.last()) {
        ws_fields(s.drop_last()).push(Seq::<char>::empty())
    } else {
        let f = ws_fields(s.drop_last());
        f.update(f.len() - 1, f.last().push(s.last()))
    }
}

/// The fields with the empty ones dropped.
pub open spec fn drop_empties(fields: Seq<Seq<char>>) -> Seq<Seq<char>>
    decreases fields.len(),
{
    if fields.len() == 0 {
        Seq::empty()
    } else {
        let rest = drop_empties(fields.drop_last());
        if fields.last().len() > 0 {
            rest.push(fields.last())
        } else {
            rest
        }
    }
}

/// What tokenizing an input line denotes: lowercase it, strip commas, split
/// on whitespace, drop empties.
pub open spec fn tokens_of(raw: Seq<char>) -> Seq<Seq<char>> {
    drop_empties(ws_fields(strip_commas(lower_seq(raw))))
}

proof fn lemma_ws_fields_len(s: Seq<char>)
    ensures
        ws_fields(s).len() >= 1,
    decreases s.len(),
{
    if s.len() > 0 {
        lemma_ws_fields_len(s.drop_last());
    }
}

proof fn lemma_ws_fields_push(s: Seq<char>, c: char)
    ensures
        spec_is_space(c) ==> ws_fields(s.push(c)) == ws_fields(s).push(Seq::<char>::empty()),
        !spec_is_space(c) ==> ws_fields(s.push(c)) == ws_fields(s).update(
            ws_fields(s).len() - 1,
            ws_fields(s).last().push(c),
        ),
{
    lemma_ws_fields_len(s);
    let s2 = s.push(c);
    assert(s2.drop_last() =~= s);
    assert(s2.last() == c);
    assert(s2.len() > 0);
}

proof fn lemma_strip_push(s: Seq<char>, c: char)
    ensures
        c == ',' ==> strip_commas(s.push(c)) == strip_commas(s),
        c != ',' ==> strip_commas(s.push(c)) == strip_commas(s).push(c),
{
    let s2 = s.push(c);
    assert(s2.drop_last() =~= s);
    assert(s2.last() == c);
    assert(s2.len() > 0);
}

proof fn lemma_drop_empties_push(fields: Seq<Seq<char>>, f: Seq<char>)
    ensures
        f.len() > 0 ==> drop_empties(fields.push(f)) == drop_empties(fields).push(f),
        f.len() == 0 ==> drop_empties(fields.push(f)) == drop_empties(fields),
{
    let f2 = fields.push(f);
    assert(f2.drop_last() =~= fields);
    assert(f2.last() == f);
    assert(f2.len() > 0);
}

/// Tokenize one input line.
pub fn tokenize(input: &str) -> (r: Vec<String>)
    ensures
        views_of(r@) == tokens_of(input@),
{
    let lowered = lower_str(input);
    let low = lowered.as_str();
    let n = low.unicode_len();
    let mut tokens: Vec<String> = Vec::new();
    let mut cur = String::new();
    let mut i: usize = 0;
    let ghost mut done: Seq<Seq<char>> = Seq::empty();
    proof {
        assert(low@.take(0) =~= Seq::<char>::empty());
        assert(strip_commas(low@.take(0)) == Seq::<char>::empty());
        assert(ws_fields(Seq::<char>::empty()) =~= done.push(cur@));
        assert(views_of(tokens@) =~= drop_empties(done));
    }
    while i < n
        invariant
            i <= n,
            n == low@.len(),
            low@ == lower_seq(input@),
            ws_fields(strip_commas(low@.take(i as int))) == done.push(cur@),
            views_of(tokens@) == drop_empties(done),
        decreases n - i,
    {
        let c = low.get_char(i);
        proof {
            assert(low@.take(i + 1) =~= low@.take(i as int).push(c));
            lemma_strip_push(low@.take(i as int), c);
            if c != ',' {
                lemma_ws_fields_push(strip_commas(low@.take(i as int)), c);
                lemma_ws_fields_len(strip_commas(low@.take(i as int)));
            }
        }
        if c == ',' {
            // stripped: nothing changes
        } else if is_space(c) {
            proof {
                lemma_drop_empties_push(done, cur@);
            }
            let finished = cur;
            cur = String::new();
            if finished.unicode_len() > 0 {
                tokens.push(finished);
                proof {
                    assert(views_of(tokens@) =~= drop_empties(done.push(finished@)));
                }
            }
            proof {
                done = done.push(finished@);
                assert(ws_fields(strip_commas(low@.take(i + 1))) =~= done.push(cur@));
            }
        } else {
            push_char(&mut cur, c);
        }
        i = i + 1;
    }
    proof {
        assert(low@.take(n as int) =~= low@);
        lemma_drop_empties_push(done, cur@);
    }
    if cur.unicode_len() > 0 {
        tokens.push(cur);
        proof {
            assert(views_of(tokens@) =~= drop_empties(done.push(cur@)));
        }
    }
    proof {
        assert(tokens_of(input@) == drop_empties(done.push(cur@)));
    }
    tokens
}

/// Every token is a usable numeral: non-empty, all digits, within the parse
/// length limit.
pub open spec fn ords_ok(ts: Seq<Seq<char>>) -> bool {
    forall|k: int|
        0 <= k < ts.len() ==> {
            &&& (#[trigger] ts[k]).len() > 0
            &&& all_digits(ts[k])
            &&& ts[k].len() <= max_numeral_len()
        }
}

/// The numeral values of the tokens.
pub open spec fn ord_vals(ts: Seq<Seq<char>>) -> Seq<u64> {
    ts.map_values(|t: Seq<char>| dec_val(t) as u64)
}

/// Parse the tokens from position `from` on as ordinals; `None` exactly when
/// some such token is not a usable numeral.
pub fn parse_ordinals(tokens: &Vec<String>, from: usize) -> (r: Option<Vec<u64>>)
    requires
        from <= tokens@.len(),
    ensures
        match r {
            Some(v) => ords_ok(views_of(tokens@).skip(from as int)) && v@ == ord_vals(
                views_of(tokens@).skip(from as int),
            ),
            None => !ords_ok(views_of(tokens@).skip(from as int)),
        },
{
    let ghost sub = views_of(tokens@).skip(from as int);
    let n = tokens.len();
    let mut v: Vec<u64> = Vec::new();
    let mut i: usize = from;
    proof {
        assert(v@ =~= ord_vals(sub.take(0)));
    }
    while i < n
        invariant
            from <= i <= n,
            n == tokens@.len(),
            sub == views_of(tokens@).skip(from as int),
            v@ == ord_vals(sub.take(i - from)),
            ords_ok(sub.take(i - from)),
        decreases n - i,
    {
        proof {
            assert(sub[i - from] == views_of(tokens@)[i as int]);
        }
        match parse_number(tokens[i].as_str()) {
            Some(x) => {
                v.push(x);
                proof {
                    assert(sub.take(i + 1 - from).drop_last() =~= sub.take(i - from));
                    assert(sub.take(i + 1 - from).last() == sub[i - from]);
                    assert(ord_vals(sub.take(i + 1 - from)) =~= ord_vals(
                        sub.take(i - from),
                    ).push(dec_val(sub[i - from]) as u64));
                    assert(ords_ok(sub.take(i + 1 - from))) by {
                        assert(forall|k: int|
                            0 <= k < i + 1 - from ==> #[trigger] sub.take(i + 1 - from)[k]
                                == sub[k]);
                    }
                }
            },
            None => {
                proof {
                    assert(!ords_ok(sub)) by {
                        assert(sub[i - from] == views_of(tokens@)[i as int]);
                    }
                }
                return None;
            },
        }
        i = i + 1;
    }
    proof {
        assert(sub.take(n - from) =~= sub);
    }
    Some(v)
}

/// The one command a line of input denotes.
#[derive(Debug)]
pub enum Command {
    /// Quit the interaction; also what an empty line means.
    Quit,
    /// Print the help text and read another line.
    Help,
    /// Unrecognized input: report it, print the help text, read another line.
    Invalid,
    /// Print the given ordinals, or all of them when none are given.
    Print(Vec<u64>),
    /// Delete the selection the ordinals denote.
    Delete(Vec<u64>),
    /// Edit the selection the ordinals denote.
    Edit(Vec<u64>),
    /// Open the selection the ordinals denote.
    Open(Vec<u64>),
}

/// The token starts with a decimal digit.
pub open spec fn leading_digit(t: Seq<char>) -> bool {
    t.len() > 0 && spec_is_digit(t[0])
}

/// Route one token list to its command:
/// an empty list or `q` quits; `h` asks for help; `p`, `d`, `e` take the
/// remaining tokens as ordinals; a list starting with a digit is opened as
/// ordinals; anything else, including unparsable ordinals, is invalid.
pub fn interpret(tokens: &Vec<String>) -> (r: Command)
    ensures
        match r {
            Command::Quit => {
                let t = views_of(tokens@);
                t.len() == 0 || t[0] == "q"@
            },
            Command::Help => {
                let t = views_of(tokens@);
                t.len() > 0 && t[0] == "h"@
            },
            Command::Print(v) => {
                let t = views_of(tokens@);
                t.len() > 0 && t[0] == "p"@ && ords_ok(t.drop_first()) && v@ == ord_vals(
                    t.drop_first(),
                )
            },
            Command::Delete(v) => {
                let t = views_of(tokens@);
                t.len() > 0 && t[0] == "d"@ && ords_ok(t.drop_first()) && v@ == ord_vals(
                    t.drop_first(),
                )
            },
            Command::Edit(v) => {
                let t = views_of(tokens@);
                t.len() > 0 && t[0] == "e"@ && ords_ok(t.drop_first()) && v@ == ord_vals(
                    t.drop_first(),
                )
            },
            Command::Open(v) => {
                let t = views_of(tokens@);
                t.len() > 0 && leading_digit(t[0]) && ords_ok(t) && v@ == ord_vals(t)
            },
            Command::Invalid => {
                let t = views_of(tokens@);
                &&& t.len() > 0
                &&& t[0] != "q"@
                &&& t[0] != "h"@
                &&& ((t[0] == "p"@ || t[0] == "d"@ || t[0] == "e"@) ==> !ords_ok(
                    t.drop_first(),
                ))
                &&& (leading_digit(t[0]) ==> !ords_ok(t))
            },
        },
{
    let ghost t = views_of(tokens@);
    if tokens.len() == 0 {
        return Command::Quit;
    }
    proof {
        assert(t[0] == tokens@[0]@);
        assert(t.drop_first() =~= views_of(tokens@).skip(1));
    }
    let first = tokens[0].as_str();
    if str_eq(first, "q") {
        return Command::Quit;
    }
    if str_eq(first, "h") {
        return Command::Help;
    }
    if str_eq(first, "p") {
        return match parse_ordinals(tokens, 1) {
            Some(v) => Command::Print(v),
            None => Command::Invalid,
        };
    }
    if str_eq(first, "d") {
        return match parse_ordinals(tokens, 1) {
            Some(v) => Command::Delete(v),
            None => Command::Invalid,
        };
    }
    if str_eq(first, "e") {
        return match parse_ordinals(tokens, 1) {
            Some(v) => Command::Edit(v),
            None => Command::Invalid,
        };
    }
    let has_digit = if first.unicode_len() > 0 {
        is_digit(first.get_char(0))
    } else {
        false
    };
    if has_digit {
        return match parse_ordinals(tokens, 0) {
            Some(v) => {
                proof {
                    assert(t.skip(0) =~= t);
                }
                Command::Open(v)
            },
            None => {
                proof {
                    assert(t.skip(0) =~= t);
                }
                Command::Invalid
            },
        };
    }
    Command::Invalid
}

/// Whether a command loops back for another line of input rather than ending
/// the interaction: only help and invalid input do.
pub fn loops_again(c: &Command) -> (r: bool)
    ensures
        r == (c is Help || c is Invalid),
{
    match c {
        Command::Help => true,
        Command::Invalid => true,
        _ => false,
    }
}

} // verus!
