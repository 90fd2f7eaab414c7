//! Plugin arguments and their wire codec.
//!
//! A plugin hands the coordinator a value made of flags, strings, and
//! nested lists. The coordinator serializes it into a single environment
//! variable; every driver invocation deserializes it back. Because the
//! value crosses a process boundary this way, the codec must round-trip
//! exactly: the serialization of a value is decoded to that value and to
//! nothing else.
//!
//! The wire format is one line of text: `t` and `f` for the two flags,
//! `"…"` for a string with `\` escaping `"` and `\` itself, and `[…]` for
//! a list of serialized values in order.

use vstd::prelude::*;

use crate::strutil::push_char;

verus! {

/// One plugin-argument value: a flag, a string, or a list of values.
#[derive(Debug, PartialEq, Eq)]
pub enum ArgsValue {
    Flag(bool),
    Text(String),
    List(Vec<ArgsValue>),
}

/// The mathematical shape of an [`ArgsValue`]: the same tree over
/// character sequences.
pub enum ArgsSpec {
    Flag(bool),
    Text(Seq<char>),
    List(Seq<ArgsSpec>),
}

impl ArgsValue {
    /// The mathematical value of this argument tree.
    pub open spec fn model(self) -> ArgsSpec
        decreases self,
    {
        match self {
            ArgsValue::Flag(b) => ArgsSpec::Flag(b),
            ArgsValue::Text(s) => ArgsSpec::Text(s@),
            ArgsValue::List(items) => ArgsSpec::List(models_of(items@)),
        }
    }
}

/// The mathematical values of a sequence of argument trees.
pub open spec fn models_of(s: Seq<ArgsValue>) -> Seq<ArgsSpec>
    decreases s,
{
    if s.len() == 0 {
        Seq::empty()
    } else {
        seq![s[0].model()] + models_of(s.drop_first())
    }
}

pub proof fn lemma_models_of(s: Seq<ArgsValue>)
    ensures
        models_of(s).len() == s.len(),
        forall|i: int| 0 <= i < s.len() ==> models_of(s)[i] == s[i].model(),
    decreases s.len(),
{
    if s.len() != 0 {
        lemma_models_of(s.drop_first());
        assert(forall|i: int|
            0 <= i < s.drop_first().len() ==> s.drop_first()[i] == s[i + 1]);
    }
}

/// `s` with every `"` and `\` preceded by a `\`.
pub open spec fn spec_escape(s: Seq<char>) -> Seq<char>
    decreases s.len(),
{
    if s.len() == 0 {
        Seq::empty()
    } else if s[0] == '"' || s[0] == '\\' {
        seq!['\\', s[0]] + spec_escape(s.skip(1))
    } else {
        seq![s[0]] + spec_escape(s.skip(1))
    }
}

/// The serialization of one value.
pub open spec fn spec_ser(m: ArgsSpec) -> Seq<char>
    decreases m,
{
    match m {
        ArgsSpec::Flag(b) => if b {
            seq!['t']
        } else {
            seq!['f']
        },
        ArgsSpec::Text(s) => seq!['"'] + spec_escape(s) + seq!['"'],
        ArgsSpec::List(items) => seq!['['] + spec_ser_list(items) + seq![']'],
    }
}

/// The serializations of a sequence of values, concatenated.
pub open spec fn spec_ser_list(items: Seq<ArgsSpec>) -> Seq<char>
    decreases items,
{
    if items.len() == 0 {
        Seq::empty()
    } else {
        spec_ser(items[0]) + spec_ser_list(items.drop_first())
    }
}

/// Appends the escaped form of `s` to `out`.
fn write_escaped(out: &mut String, s: &str)
    ensures
        final(out)@ == old(out)@ + spec_escape(s@),
{
    let n = s.unicode_len();
    let mut i: usize = 0;
    while i < n
        invariant
            0 <= i <= n,
            n == s@.len(),
            out@ == old(out)@ + spec_escape(s@.subrange(0, i as int)),
        decreases n - i,
    {
        let ghost prefix = s@.subrange(0, i as int);
        let c = s.get_char(i);
        if c == '"' || c == '\\' {
            push_char(out, '\\');
            push_char(out, c);
        } else {
            push_char(out, c);
        }
        i += 1;
        proof {
            lemma_escape_push(prefix, c);
            assert(s@.subrange(0, i as int) =~= prefix.push(c));
        }
    }
    proof {
        assert(s@.subrange(0, n as int) =~= s@);
    }
}

/// Appending one character to a string appends its escaped form to the
/// escaped string.
proof fn lemma_escape_push(s: Seq<char>, c: char)
    ensures
        spec_escape(s.push(c)) == spec_escape(s) + (if c == '"' || c == '\\' {
            seq!['\\', c]
        } else {
            seq![c]
        }),
    decreases s.len(),
{
    let tail = if c == '"' || c == '\\' {
        seq!['\\', c]
    } else {
        seq![c]
    };
    if s.len() == 0 {
        let p = s.push(c);
        assert(p =~= seq![c]);
        assert(p[0] == c);
        assert(p.skip(1) =~= Seq::<char>::empty());
        assert(spec_escape(p.skip(1)) == Seq::<char>::empty());
        assert(spec_escape(p) =~= tail);
        assert(spec_escape(s) == Seq::<char>::empty());
        assert(spec_escape(s) + tail =~= tail);
    } else {
        let p = s.push(c);
        assert(p[0] == s[0]);
        assert(p.skip(1) =~= s.skip(1).push(c));
        lemma_escape_push(s.skip(1), c);
        if s[0] == '"' || s[0] == '\\' {
            assert(spec_escape(p) =~= spec_escape(s) + tail);
        } else {
            assert(spec_escape(p) =~= spec_escape(s) + tail);
        }
    }
}

impl ArgsValue {
    /// Appends the serialization of `self` to `out`.
    #[verifier::loop_isolation(false)]
    fn write_to(&self, out: &mut String)
        ensures
            final(out)@ == old(out)@ + spec_ser(self.model()),
        decreases self,
    {
        match self {
            ArgsValue::Flag(b) => {
                if *b {
                    push_char(out, 't');
                } else {
                    push_char(out, 'f');
                }
                proof {
                    assert(out@ =~= old(out)@ + spec_ser(self.model()));
                }
            },
            ArgsValue::Text(s) => {
                push_char(out, '"');
                write_escaped(out, s.as_str());
                push_char(out, '"');
                proof {
                    assert(out@ =~= old(out)@ + spec_ser(self.model()));
                }
            },
            ArgsValue::List(items) => {
                push_char(out, '[');
                let ghost ms = models_of(items@);
                proof {
                    lemma_models_of(items@);
                }
                let n = items.len();
                let mut i: usize = 0;
                while i < n
                    invariant
                        0 <= i <= n,
                        n == items@.len(),
                        ms.len() == n,
                        forall|k: int| 0 <= k < n ==> ms[k] == items@[k].model(),
                        out@ == old(out)@ + seq!['['] + spec_ser_list(ms.subrange(0, i as int)),
                    decreases n - i,
                {
                    let ghost done = ms.subrange(0, i as int);
                    items[i].write_to(out);
                    proof {
                        lemma_ser_list_push(done, ms[i as int]);
                        assert(ms.subrange(0, i + 1int) =~= done.push(ms[i as int]));
                    }
                    i += 1;
                }
                push_char(out, ']');
                proof {
                    assert(ms.subrange(0, n as int) =~= ms);
                    assert(out@ =~= old(out)@ + spec_ser(self.model()));
                }
            },
        }
    }

    /// The serialization of `self`: one line of text from which
    /// [`deserialize`] recovers the value exactly.
    pub fn serialize(&self) -> (r: String)
        ensures
            r@ == spec_ser(self.model()),
    {
        let mut out = String::new();
        self.write_to(&mut out);
        out
    }
}

/// Parses a string body up to and including its closing quote. Returns
/// the unescaped content and the number of characters consumed.
pub open spec fn spec_parse_text(s: Seq<char>) -> Option<(Seq<char>, int)>
    decreases s.len(),
{
    if s.len() == 0 {
        None
    } else if s[0] == '"' {
        Some((Seq::empty(), 1int))
    } else if s[0] == '\\' {
        if s.len() >= 2 && (s[1] == '"' || s[1] == '\\') {
            match spec_parse_text(s.skip(2)) {
                Some((t, n)) => Some((seq![s[1]] + t, n + 2)),
                None => None,
            }
        } else {
            None
        }
    } else {
        match spec_parse_text(s.skip(1)) {
            Some((t, n)) => Some((seq![s[0]] + t, n + 1)),
            None => None,
        }
    }
}

/// Parses one serialized value from the front of `s`. Returns the value
/// and the number of characters consumed.
pub open spec fn spec_parse_value(s: Seq<char>) -> Option<(ArgsSpec, int)>
    decreases s.len(), 0nat,
{
    if s.len() == 0 {
        None
    } else if s[0] == 't' {
        Some((ArgsSpec::Flag(true), 1int))
    } else if s[0] == 'f' {
        Some((ArgsSpec::Flag(false), 1int))
    } else if s[0] == '"' {
        match spec_parse_text(s.skip(1)) {
            Some((t, n)) => Some((ArgsSpec::Text(t), n + 1)),
            None => None,
        }
    } else if s[0] == '[' {
        match spec_parse_list(s.skip(1)) {
            Some((items, n)) => Some((ArgsSpec::List(items), n + 1)),
            None => None,
        }
    } else {
        None
    }
}

/// Parses list items up to and including the closing bracket.
pub open spec fn spec_parse_list(s: Seq<char>) -> Option<(Seq<ArgsSpec>, int)>
    decreases s.len(), 1nat,
{
    if s.len() == 0 {
        None
    } else if s[0] == ']' {
        Some((Seq::empty(), 1int))
    } else {
        match spec_parse_value(s) {
            Some((m, n)) => if 0 < n <= s.len() {
                match spec_parse_list(s.skip(n)) {
                    Some((items, n2)) => Some((seq![m] + items, n + n2)),
                    None => None,
                }
            } else {
                None
            },
            None => None,
        }
    }
}

/// Every serialization is nonempty and starts with one of the four value
/// openers, never with a closing bracket.
proof fn lemma_ser_first_char(m: ArgsSpec)
    ensures
        spec_ser(m).len() > 0,
        spec_ser(m)[0] == 't' || spec_ser(m)[0] == 'f' || spec_ser(m)[0] == '"' || spec_ser(m)[0]
            == '[',
{
    match m {
        ArgsSpec::Flag(b) => {},
        ArgsSpec::Text(s) => {
            assert(spec_ser(m)[0] == '"');
        },
        ArgsSpec::List(items) => {
            assert(spec_ser(m)[0] == '[');
        },
    }
}

/// The parser recovers exactly what the escaper wrote, whatever follows
/// the closing quote.
proof fn lemma_parse_escape(t: Seq<char>, rest: Seq<char>)
    ensures
        spec_parse_text(spec_escape(t) + seq!['"'] + rest) == Some(
            (t, spec_escape(t).len() + 1int),
        ),
    decreases t.len(),
{
    let s = spec_escape(t) + seq!['"'] + rest;
    if t.len() == 0 {
        assert(s[0] == '"');
    } else {
        let c = t[0];
        let t2 = t.skip(1);
        lemma_parse_escape(t2, rest);
        if c == '"' || c == '\\' {
            assert(s[0] == '\\');
            assert(s[1] == c);
            assert(s.len() >= 2);
            assert(s.skip(2) =~= spec_escape(t2) + seq!['"'] + rest);
            assert(seq![c] + t2 =~= t);
        } else {
            assert(s[0] == c);
            assert(s.skip(1) =~= spec_escape(t2) + seq!['"'] + rest);
            assert(seq![c] + t2 =~= t);
        }
    }
}

/// The parser recovers exactly what the serializer wrote, whatever
/// follows it.
pub proof fn lemma_parse_ser(m: ArgsSpec, rest: Seq<char>)
    ensures
        spec_parse_value(spec_ser(m) + rest) == Some((m, spec_ser(m).len() as int)),
    decreases m, 0nat,
{
    let s = spec_ser(m) + rest;
    match m {
        ArgsSpec::Flag(b) => {
            if b {
                assert(s[0] == 't');
            } else {
                assert(s[0] == 'f');
            }
        },
        ArgsSpec::Text(t) => {
            assert(s[0] == '"');
            assert(s.skip(1) =~= spec_escape(t) + seq!['"'] + rest);
            lemma_parse_escape(t, rest);
        },
        ArgsSpec::List(items) => {
            assert(s[0] == '[');
            assert(s.skip(1) =~= spec_ser_list(items) + seq![']'] + rest);
            lemma_parse_ser_list(items, rest);
        },
    }
}

/// The list parser recovers exactly the serialized items, whatever
/// follows the closing bracket.
proof fn lemma_parse_ser_list(items: Seq<ArgsSpec>, rest: Seq<char>)
    ensures
        spec_parse_list(spec_ser_list(items) + seq![']'] + rest) == Some(
            (items, spec_ser_list(items).len() + 1int),
        ),
    decreases items, 1nat,
{
    let s = spec_ser_list(items) + seq![']'] + rest;
    if items.len() == 0 {
        assert(s[0] == ']');
        assert(items =~= Seq::<ArgsSpec>::empty());
    } else {
        let m0 = items[0];
        let dr = items.drop_first();
        lemma_ser_first_char(m0);
        assert(s[0] == spec_ser(m0)[0]);
        assert(s[0] != ']');
        let tail = spec_ser_list(dr) + seq![']'] + rest;
        assert(s =~= spec_ser(m0) + tail);
        lemma_parse_ser(m0, tail);
        let n0 = spec_ser(m0).len() as int;
        assert(0 < n0 <= s.len());
        assert(s.skip(n0) =~= tail);
        lemma_parse_ser_list(dr, rest);
        assert(seq![m0] + dr =~= items);
    }
}

/// What the text parser accepts is exactly an escaped body: consuming
/// `n` characters and yielding `t` means those characters are the
/// escaped form of `t` followed by the closing quote.
proof fn lemma_text_sound(s: Seq<char>)
    ensures
        match spec_parse_text(s) {
            Some((t, n)) => 1 <= n <= s.len() && s.subrange(0, n) =~= spec_escape(t) + seq!['"'],
            None => true,
        },
    decreases s.len(),
{
    if s.len() != 0 && s[0] != '"' {
        if s[0] == '\\' {
            if s.len() >= 2 && (s[1] == '"' || s[1] == '\\') {
                lemma_text_sound(s.skip(2));
                match spec_parse_text(s.skip(2)) {
                    Some((t, n)) => {
                        assert(s.subrange(0, n + 2) =~= seq![s[0], s[1]] + s.skip(2).subrange(
                            0,
                            n,
                        ));
                        assert(spec_escape(seq![s[1]] + t).skip(2) =~= spec_escape(t)) by {
                            assert((seq![s[1]] + t)[0] == s[1]);
                            assert((seq![s[1]] + t).skip(1) =~= t);
                        }
                        assert(s.subrange(0, n + 2) =~= spec_escape(seq![s[1]] + t) + seq!['"']);
                    },
                    None => {},
                }
            }
        } else {
            lemma_text_sound(s.skip(1));
            match spec_parse_text(s.skip(1)) {
                Some((t, n)) => {
                    assert(s.subrange(0, n + 1) =~= seq![s[0]] + s.skip(1).subrange(0, n));
                    assert(spec_escape(seq![s[0]] + t) =~= seq![s[0]] + spec_escape(t)) by {
                        assert((seq![s[0]] + t)[0] == s[0]);
                        assert((seq![s[0]] + t).skip(1) =~= t);
                    }
                    assert(s.subrange(0, n + 1) =~= spec_escape(seq![s[0]] + t) + seq!['"']);
                },
                None => {},
            }
        }
    }
}

/// What the value parser accepts is exactly a serialization: consuming
/// `n` characters and yielding `m` means those characters are the
/// serialization of `m`.
pub proof fn lemma_parse_sound(s: Seq<char>)
    ensures
        match spec_parse_value(s) {
            Some((m, n)) => 1 <= n <= s.len() && s.subrange(0, n) =~= spec_ser(m),
            None => true,
        },
    decreases s.len(), 0nat,
{
    if s.len() != 0 {
        if s[0] == 't' || s[0] == 'f' {
            match spec_parse_value(s) {
                Some((m, n)) => {
                    assert(s.subrange(0, 1) =~= seq![s[0]]);
                    assert(s.subrange(0, n) =~= spec_ser(m));
                },
                None => {},
            }
        } else if s[0] == '"' {
            lemma_text_sound(s.skip(1));
            match spec_parse_text(s.skip(1)) {
                Some((t, n)) => {
                    assert(s.subrange(0, n + 1) =~= seq![s[0]] + s.skip(1).subrange(0, n));
                    assert(s.subrange(0, n + 1) =~= spec_ser(ArgsSpec::Text(t)));
                },
                None => {},
            }
        } else if s[0] == '[' {
            lemma_list_sound(s.skip(1));
            match spec_parse_list(s.skip(1)) {
                Some((items, n)) => {
                    assert(s.subrange(0, n + 1) =~= seq![s[0]] + s.skip(1).subrange(0, n));
                    assert(s.subrange(0, n + 1) =~= spec_ser(ArgsSpec::List(items)));
                },
                None => {},
            }
        }
    }
}

/// What the list parser accepts is exactly serialized items followed by
/// the closing bracket.
proof fn lemma_list_sound(s: Seq<char>)
    ensures
        match spec_parse_list(s) {
            Some((items, n)) => 1 <= n <= s.len() && s.subrange(0, n) =~= spec_ser_list(items)
                + seq![']'],
            None => true,
        },
    decreases s.len(), 1nat,
{
    if s.len() != 0 && s[0] != ']' {
        lemma_parse_sound(s);
        match spec_parse_value(s) {
            Some((m, n)) => {
                if 0 < n <= s.len() {
                    lemma_list_sound(s.skip(n));
                    match spec_parse_list(s.skip(n)) {
                        Some((items, n2)) => {
                            assert(s.subrange(0, n + n2) =~= s.subrange(0, n) + s.skip(n).subrange(
                                0,
                                n2,
                            ));
                            assert(spec_ser_list(seq![m] + items) =~= spec_ser(m) + spec_ser_list(
                                items,
                            )) by {
                                assert((seq![m] + items)[0] == m);
                                assert((seq![m] + items).drop_first() =~= items);
                            }
                            assert(s.subrange(0, n + n2) =~= spec_ser_list(seq![m] + items)
                                + seq![']']);
                        },
                        None => {},
                    }
                }
            },
            None => {},
        }
    }
}

/// Serializing one more list item appends its serialization.
proof fn lemma_ser_list_push(items: Seq<ArgsSpec>, m: ArgsSpec)
    ensures
        spec_ser_list(items.push(m)) == spec_ser_list(items) + spec_ser(m),
    decreases items.len(),
{
    if items.len() == 0 {
        let p = items.push(m);
        assert(p[0] == m);
        assert(p.drop_first() =~= Seq::<ArgsSpec>::empty());
        assert(spec_ser_list(p.drop_first()) == Seq::<char>::empty());
        assert(spec_ser_list(p) =~= spec_ser(m));
        assert(spec_ser_list(items) == Seq::<char>::empty());
        assert(spec_ser_list(items) + spec_ser(m) =~= spec_ser(m));
    } else {
        let p = items.push(m);
        assert(p[0] == items[0]);
        assert(p.drop_first() =~= items.drop_first().push(m));
        lemma_ser_list_push(items.drop_first(), m);
        assert(spec_ser_list(p) =~= spec_ser_list(items) + spec_ser(m));
    }
}

/// A sequence of values grows its models one at a time.
proof fn lemma_models_of_push(s: Seq<ArgsValue>, v: ArgsValue)
    ensures
        models_of(s.push(v)) == models_of(s) + seq![v.model()],
{
    lemma_models_of(s);
    lemma_models_of(s.push(v));
    assert(models_of(s.push(v)) =~= models_of(s) + seq![v.model()]);
}

/// Parses a string body starting at `pos` (just after the opening
/// quote), up to and including the closing quote.
#[verifier::loop_isolation(false)]
fn parse_text(s: &str, pos: usize) -> (r: Option<(String, usize)>)
    requires
        pos <= s@.len(),
    ensures
        match r {
            Some((t, end)) => pos < end <= s@.len() && spec_parse_text(s@.skip(pos as int))
                == Some((t@, end - pos)),
            None => spec_parse_text(s@.skip(pos as int)) is None,
        },
{
    let ghost whole = s@.skip(pos as int);
    let n = s.unicode_len();
    let mut out = String::new();
    let mut i: usize = pos;
    loop
        invariant
            pos <= i <= n,
            n == s@.len(),
            spec_parse_text(whole) == (match spec_parse_text(s@.skip(i as int)) {
                Some((t, k)) => Some((out@ + t, (i - pos) + k)),
                None => None,
            }),
        decreases n - i,
    {
        let ghost suf = s@.skip(i as int);
        if i >= n {
            assert(suf.len() == 0);
            return None;
        }
        let c = s.get_char(i);
        proof {
            assert(suf[0] == c);
        }
        if c == '"' {
            proof {
                assert(out@ + Seq::<char>::empty() =~= out@);
            }
            return Some((out, i + 1));
        } else if c == '\\' {
            if i + 1 >= n {
                assert(suf.len() < 2);
                return None;
            }
            let c2 = s.get_char(i + 1);
            proof {
                assert(suf[1] == c2);
            }
            if c2 == '"' || c2 == '\\' {
                let ghost prev = out@;
                push_char(&mut out, c2);
                proof {
                    assert(suf.skip(2) =~= s@.skip(i + 2int));
                    assert(forall|t: Seq<char>| prev + (seq![c2] + t) =~= (prev.push(c2)) + t);
                }
                i += 2;
            } else {
                return None;
            }
        } else {
            let ghost prev = out@;
            push_char(&mut out, c);
            proof {
                assert(suf.skip(1) =~= s@.skip(i + 1int));
                assert(forall|t: Seq<char>| prev + (seq![c] + t) =~= (prev.push(c)) + t);
            }
            i += 1;
        }
    }
}

/// Parses one serialized value starting at `pos`.
#[verifier::loop_isolation(false)]
fn parse_value(s: &str, pos: usize) -> (r: Option<(ArgsValue, usize)>)
    requires
        pos <= s@.len(),
    ensures
        match r {
            Some((v, end)) => pos < end <= s@.len() && spec_parse_value(s@.skip(pos as int))
                == Some((v.model(), end - pos)),
            None => spec_parse_value(s@.skip(pos as int)) is None,
        },
    decreases s@.len() - pos, 0nat,
{
    let ghost suf = s@.skip(pos as int);
    let n = s.unicode_len();
    if pos >= n {
        assert(suf.len() == 0);
        return None;
    }
    let c = s.get_char(pos);
    proof {
        assert(suf[0] == c);
    }
    if c == 't' {
        Some((ArgsValue::Flag(true), pos + 1))
    } else if c == 'f' {
        Some((ArgsValue::Flag(false), pos + 1))
    } else if c == '"' {
        proof {
            assert(suf.skip(1) =~= s@.skip(pos + 1int));
        }
        match parse_text(s, pos + 1) {
            Some((t, end)) => Some((ArgsValue::Text(t), end)),
            None => None,
        }
    } else if c == '[' {
        proof {
            assert(suf.skip(1) =~= s@.skip(pos + 1int));
        }
        match parse_list(s, pos + 1) {
            Some((items, end)) => Some((ArgsValue::List(items), end)),
            None => None,
        }
    } else {
        None
    }
}

/// Parses list items starting at `pos` (just after the opening bracket),
/// up to and including the closing bracket.
#[verifier::loop_isolation(false)]
fn parse_list(s: &str, pos: usize) -> (r: Option<(Vec<ArgsValue>, usize)>)
    requires
        pos <= s@.len(),
    ensures
        match r {
            Some((items, end)) => pos < end <= s@.len() && spec_parse_list(s@.skip(pos as int))
                == Some((models_of(items@), end - pos)),
            None => spec_parse_list(s@.skip(pos as int)) is None,
        },
    decreases s@.len() - pos, 1nat,
{
    let ghost whole = s@.skip(pos as int);
    let n = s.unicode_len();
    let mut acc: Vec<ArgsValue> = Vec::new();
    let mut i: usize = pos;
    proof {
        assert(models_of(acc@) =~= Seq::<ArgsSpec>::empty());
    }
    loop
        invariant
            pos <= i <= n,
            n == s@.len(),
            spec_parse_list(whole) == (match spec_parse_list(s@.skip(i as int)) {
                Some((ms, k)) => Some((models_of(acc@) + ms, (i - pos) + k)),
                None => None,
            }),
        decreases n - i,
    {
        let ghost suf = s@.skip(i as int);
        if i >= n {
            assert(suf.len() == 0);
            return None;
        }
        let c = s.get_char(i);
        proof {
            assert(suf[0] == c);
        }
        if c == ']' {
            proof {
                assert(models_of(acc@) + Seq::<ArgsSpec>::empty() =~= models_of(acc@));
            }
            return Some((acc, i + 1));
        }
        match parse_value(s, i) {
            None => {
                return None;
            },
            Some((v, end)) => {
                proof {
                    assert(suf.skip(end - i) =~= s@.skip(end as int));
                    lemma_models_of_push(acc@, v);
                    assert(forall|ms: Seq<ArgsSpec>|
                        models_of(acc@) + (seq![v.model()] + ms) =~= (models_of(acc@)
                            + seq![v.model()]) + ms);
                }
                acc.push(v);
                i = end;
            },
        }
    }
}

/// Decodes one serialized value: returns the value exactly when `s` is
/// the serialization of one value, with nothing before or after it, and
/// nothing otherwise.
pub fn deserialize(s: &str) -> (r: Option<ArgsValue>)
    ensures
        match r {
            Some(v) => s@ == spec_ser(v.model()) && forall|m: ArgsSpec|
                s@ == spec_ser(m) ==> m == v.model(),
            None => forall|m: ArgsSpec| s@ != spec_ser(m),
        },
{
    let n = s.unicode_len();
    proof {
        assert(s@.skip(0) =~= s@);
    }
    match parse_value(s, 0) {
        Some((v, end)) => {
            if end == n {
                proof {
                    lemma_parse_sound(s@);
                    assert(s@.subrange(0, n as int) =~= s@);
                    assert forall|m: ArgsSpec| s@ == spec_ser(m) implies m == v.model() by {
                        lemma_parse_ser(m, Seq::empty());
                        assert(spec_ser(m) + Seq::<char>::empty() =~= s@);
                    }
                }
                Some(v)
            } else {
                proof {
                    assert forall|m: ArgsSpec| s@ != spec_ser(m) by {
                        if s@ == spec_ser(m) {
                            lemma_parse_ser(m, Seq::empty());
                            assert(spec_ser(m) + Seq::<char>::empty() =~= s@);
                        }
                    }
                }
                None
            }
        },
        None => {
            proof {
                assert forall|m: ArgsSpec| s@ != spec_ser(m) by {
                    if s@ == spec_ser(m) {
                        lemma_parse_ser(m, Seq::empty());
                        assert(spec_ser(m) + Seq::<char>::empty() =~= s@);
                    }
                }
            }
            None
        },
    }
}

/// Law: the codec round-trips. Parsing the serialization of any value
/// yields that value back, exactly and in full; together with the
/// contracts of [`ArgsValue::serialize`] and [`deserialize`], decoding an
/// encoded argument tree on the far side of the process boundary gives
/// the tree that was encoded.
pub proof fn lemma_codec_round_trip(m: ArgsSpec)
    ensures
        spec_parse_value(spec_ser(m)) == Some((m, spec_ser(m).len() as int)),
{
    lemma_parse_ser(m, Seq::empty());
    assert(spec_ser(m) + Seq::<char>::empty() =~= spec_ser(m));
}

/// Law: no two values share a serialization, so decoding is unambiguous.
pub proof fn lemma_ser_injective(a: ArgsSpec, b: ArgsSpec)
    requires
        spec_ser(a) == spec_ser(b),
    ensures
        a == b,
{
    lemma_codec_round_trip(a);
    lemma_codec_round_trip(b);
}

} // verus!
