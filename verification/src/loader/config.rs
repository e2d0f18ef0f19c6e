//! The configuration protocol (validation before activation, value-level
//! equality) and template interpolation.

use vstd::prelude::*;

use crate::value::Value;

verus! {

/// A component's configuration protocol (opt-in, registered per component
/// name): validation before activation, and value-level equality that lets
/// a new revision with an equal value skip the rebuild.
///
/// An implementation that reports equal values as `same` promises that they
/// need no reload (a hot reload that bumps the revision with the same value
/// would then not rebuild).
pub trait Config {
    /// Validation: `Err(message)` refuses the activation.
    fn validate(&self, config: &Value) -> (r: Result<(), String>);

    /// Value-level equality.
    fn same(&self, a: &Value, b: &Value) -> (r: bool);
}

/// Whether some registration in `casts` is under `name`.
pub open spec fn has_cast(casts: Seq<(String, Box<dyn Config>)>, name: Seq<char>) -> bool {
    exists|j: int| 0 <= j < casts.len() && casts[j].0@ == name
}

/// The position of the first registration under `name` in `casts`.
pub open spec fn first_cast(casts: Seq<(String, Box<dyn Config>)>, name: Seq<char>, j: int) -> bool {
    &&& 0 <= j < casts.len()
    &&& casts[j].0@ == name
    &&& forall|i: int| 0 <= i < j ==> casts[i].0@ != name
}

/// The position of the first registration under `name` in `casts`.
pub open spec fn first_cast_pos(casts: Seq<(String, Box<dyn Config>)>, name: Seq<char>) -> int {
    choose|j: int| first_cast(casts, name, j)
}

/// Registers `protocol` as the configuration protocol of component `name`
/// in `casts` (replacing a previous registration).
pub fn register_config_cast(casts: &mut Vec<(String, Box<dyn Config>)>, name: String, protocol: Box<dyn Config>)
    ensures
        !has_cast(old(casts)@, name@) ==> final(casts)@ == old(casts)@.push((name, protocol)),
        has_cast(old(casts)@, name@) ==> first_cast(old(casts)@, name@, first_cast_pos(old(casts)@, name@))
            && final(casts)@ == old(casts)@.update(first_cast_pos(old(casts)@, name@), (name, protocol)),
{
    let mut i: usize = 0;
    let mut found: Option<usize> = None;
    while i < casts.len() && found.is_none()
        invariant
            i <= casts.len(),
            casts@ == old(casts)@,
            found matches Some(j) ==> first_cast(casts@, name@, j as int),
            found.is_none() ==> forall|k: int| 0 <= k < i ==> casts@[k].0@ != name@,
        decreases casts.len() - i,
    {
        if casts[i].0 == name {
            found = Some(i);
        }
        i = i + 1;
    }
    match found {
        Some(j) => {
            proof {
                let c = first_cast_pos(casts@, name@);
                assert(first_cast(casts@, name@, c));
                assert(c == j);
            }
            casts.set(j, (name, protocol));
        },
        None => {
            casts.push((name, protocol));
        },
    }
}

} // verus!

verus! {

/// The characters of `s`, in order.
pub(crate) fn chars_of(s: &str) -> (r: Vec<char>)
    ensures
        r@ == s@,
{
    broadcast use vstd::string::axiom_spec_iter;
    let mut out: Vec<char> = Vec::new();
    for c in it: s.chars()
        invariant
            out@ == it.seq().take(it.index() as int),
            it.seq() == s@,
    {
        out.push(c);
    }
    out
}

} // verus!

verus! {

/// `String::push`, which appends one character.
#[verifier::external_body]
fn push_char(s: &mut String, c: char)
    ensures
        final(s)@ == old(s)@.push(c),
{
    s.push(c);
}

/// Unicode white space (the `White_Space` property, which `char::is_whitespace`
/// and `str::trim` follow).
pub open spec fn is_space(c: char) -> bool {
    ||| '\u{9}' <= c <= '\u{d}'
    ||| c == ' '
    ||| c == '\u{85}'
    ||| c == '\u{a0}'
    ||| c == '\u{1680}'
    ||| '\u{2000}' <= c <= '\u{200a}'
    ||| c == '\u{2028}'
    ||| c == '\u{2029}'
    ||| c == '\u{202f}'
    ||| c == '\u{205f}'
    ||| c == '\u{3000}'
}

fn space(c: char) -> (r: bool)
    ensures
        r == is_space(c),
{
    ('\u{9}' <= c && c <= '\u{d}') || c == ' ' || c == '\u{85}' || c == '\u{a0}' || c == '\u{1680}'
        || ('\u{2000}' <= c && c <= '\u{200a}') || c == '\u{2028}' || c == '\u{2029}' || c == '\u{202f}'
        || c == '\u{205f}' || c == '\u{3000}'
}

/// `s` without leading white space.
pub open spec fn trim_start(s: Seq<char>) -> Seq<char>
    decreases s.len(),
{
    if s.len() > 0 && is_space(s[0]) {
        trim_start(s.drop_first())
    } else {
        s
    }
}

/// `s` without trailing white space.
pub open spec fn trim_end(s: Seq<char>) -> Seq<char>
    decreases s.len(),
{
    if s.len() > 0 && is_space(s.last()) {
        trim_end(s.drop_last())
    } else {
        s
    }
}

/// `s` without leading and trailing white space.
pub open spec fn trim(s: Seq<char>) -> Seq<char> {
    trim_end(trim_start(s))
}

/// The first position at or after `i` where `c` occurs twice in a row
/// (`-1` when there is none).
pub open spec fn find_pair(s: Seq<char>, c: char, i: int) -> int
    decreases s.len() - i,
{
    if i < 0 || i + 1 >= s.len() {
        -1
    } else if s[i] == c && s[i + 1] == c {
        i
    } else {
        find_pair(s, c, i + 1)
    }
}

/// A pair position lies inside the sequence, at or after the start.
pub proof fn lemma_find_pair(s: Seq<char>, c: char, i: int)
    ensures
        find_pair(s, c, i) == -1 || (0 <= i <= find_pair(s, c, i) && find_pair(s, c, i) + 1 < s.len()),
    decreases s.len() - i,
{
    if !(i < 0 || i + 1 >= s.len()) && !(s[i] == c && s[i + 1] == c) {
        lemma_find_pair(s, c, i + 1);
    }
}

/// The placeholder names of `s` from position `i` on: each `{{name}}`
/// (the first `}}` after a `{{` closes it) gives its name without
/// surrounding white space; an unclosed `{{` ends the placeholders.
pub open spec fn placeholder_names(s: Seq<char>, i: int) -> Seq<Seq<char>>
    decreases s.len() - i,
{
    let open = find_pair(s, '{', i);
    let close = find_pair(s, '}', open + 2);
    if i < 0 || open < 0 || close < 0 {
        Seq::empty()
    } else {
        proof {
            lemma_find_pair(s, '{', i);
            lemma_find_pair(s, '}', open + 2);
        }
        seq![trim(s.subrange(open + 2, close))] + placeholder_names(s, close + 2)
    }
}

/// `s` from position `i` on with its placeholders replaced, in order, by
/// `values`: a resolved placeholder by its value, an unresolved one (or
/// one without a value) kept as written; text outside placeholders, and
/// from an unclosed `{{` on, unchanged.
pub open spec fn rendered(s: Seq<char>, i: int, values: Seq<Option<Seq<char>>>) -> Seq<char>
    decreases s.len() - i,
{
    let open = find_pair(s, '{', i);
    let close = find_pair(s, '}', open + 2);
    if i < 0 || i > s.len() {
        Seq::empty()
    } else if open < 0 || close < 0 {
        s.subrange(i, s.len() as int)
    } else {
        proof {
            lemma_find_pair(s, '{', i);
            lemma_find_pair(s, '}', open + 2);
        }
        let piece = if values.len() > 0 && values[0] is Some {
            values[0]->Some_0
        } else {
            s.subrange(open, close + 2)
        };
        s.subrange(i, open) + piece + rendered(s, close + 2, values.drop_first())
    }
}

/// The first position at or after `from` where `c` occurs twice in a row.
fn find_pair_at(t: &Vec<char>, c: char, from: usize) -> (r: Option<usize>)
    ensures
        match r {
            Some(j) => find_pair(t@, c, from as int) == j,
            None => find_pair(t@, c, from as int) == -1,
        },
{
    let mut j: usize = from;
    while j < t.len() && j + 1 < t.len()
        invariant
            from <= j,
            find_pair(t@, c, from as int) == find_pair(t@, c, j as int),
        decreases t.len() - j,
    {
        if t[j] == c && t[j + 1] == c {
            return Some(j);
        }
        j = j + 1;
    }
    None
}

/// The characters `t[lo..hi]` without surrounding white space, as a string.
fn trimmed(t: &Vec<char>, lo: usize, hi: usize) -> (r: String)
    requires
        lo <= hi <= t@.len(),
    ensures
        r@ == trim(t@.subrange(lo as int, hi as int)),
{
    let mut a: usize = lo;
    while a < hi && space(t[a])
        invariant
            lo <= a <= hi <= t@.len(),
            trim_start(t@.subrange(lo as int, hi as int)) == trim_start(t@.subrange(a as int, hi as int)),
        decreases hi - a,
    {
        proof {
            assert(t@.subrange(a as int, hi as int).drop_first() =~= t@.subrange(a as int + 1, hi as int));
        }
        a = a + 1;
    }
    let mut b: usize = hi;
    while b > a && space(t[b - 1])
        invariant
            lo <= a <= b <= hi <= t@.len(),
            trim_end(t@.subrange(a as int, hi as int)) == trim_end(t@.subrange(a as int, b as int)),
        decreases b - a,
    {
        proof {
            assert(t@.subrange(a as int, b as int).drop_last() =~= t@.subrange(a as int, b as int - 1));
        }
        b = b - 1;
    }
    let mut out = String::new();
    let mut k: usize = a;
    while k < b
        invariant
            a <= k <= b <= t@.len(),
            out@ == t@.subrange(a as int, k as int),
        decreases b - k,
    {
        push_char(&mut out, t[k]);
        proof {
            assert(t@.subrange(a as int, k as int + 1) =~= t@.subrange(a as int, k as int).push(t@[k as int]));
        }
        k = k + 1;
    }
    out
}

} // verus!

verus! {

/// The text of resolved values.
pub open spec fn texts(values: Seq<Option<String>>) -> Seq<Option<Seq<char>>> {
    values.map_values(|v: Option<String>| match v {
        Some(s) => Some(s@),
        None => None,
    })
}

/// `value` is a possible answer of `resolve` for the placeholder `name`.
pub open spec fn resolved<F: Fn(&str) -> Option<String>>(resolve: &F, name: Seq<char>, value: Option<String>) -> bool {
    exists|n: &str| n@ == name && #[trigger] call_ensures(*resolve, (n,), value)
}

/// Appends `t[a..b]` to `out`.
fn push_range(out: &mut String, t: &Vec<char>, a: usize, b: usize)
    requires
        a <= b <= t@.len(),
    ensures
        final(out)@ == old(out)@ + t@.subrange(a as int, b as int),
{
    let mut k: usize = a;
    while k < b
        invariant
            a <= k <= b <= t@.len(),
            out@ == old(out)@ + t@.subrange(a as int, k as int),
        decreases b - k,
    {
        push_char(out, t[k]);
        proof {
            assert(t@.subrange(a as int, k as int + 1) =~= t@.subrange(a as int, k as int).push(t@[k as int]));
            assert(old(out)@ + t@.subrange(a as int, k as int + 1) =~= (old(out)@ + t@.subrange(a as int, k as int)).push(t@[k as int]));
        }
        k = k + 1;
    }
}

/// Template interpolation: each `{{name}}` placeholder of `template` is
/// replaced by `resolve(name)` (the name without surrounding white space);
/// an unresolved placeholder is kept as written, and so is everything from
/// an unclosed `{{` on. A name used twice is resolved twice.
pub fn interpolate<F: Fn(&str) -> Option<String>>(template: &str, resolve: &F) -> (r: String)
    requires
        forall|n: &str| #[trigger] call_requires(*resolve, (n,)),
    ensures
        exists|values: Seq<Option<String>>| {
            &&& values.len() == placeholder_names(template@, 0).len()
            &&& forall|k: int| 0 <= k < values.len() ==> #[trigger] resolved(resolve, placeholder_names(template@, 0)[k], values[k])
            &&& r@ == rendered(template@, 0, texts(values))
        },
{
    let t = chars_of(template);
    let mut out = String::new();
    let ghost mut values: Seq<Option<String>> = Seq::empty();
    let ghost mut names: Seq<Seq<char>> = Seq::empty();
    let mut i: usize = 0;
    proof {
        assert forall|vs: Seq<Option<Seq<char>>>| #[trigger] rendered(t@, i as int, vs) == rendered(t@, 0, texts(values) + vs) by {
            assert(texts(values) + vs =~= vs);
        }
        assert(names + placeholder_names(t@, 0) =~= placeholder_names(t@, 0));
    }
    loop
        invariant
            i <= t@.len(),
            t@ == template@,
            forall|n: &str| #[trigger] call_requires(*resolve, (n,)),
            values.len() == names.len(),
            names + placeholder_names(t@, i as int) == placeholder_names(t@, 0),
            forall|k: int| 0 <= k < values.len() ==> #[trigger] resolved(resolve, names[k], values[k]),
            forall|vs: Seq<Option<Seq<char>>>| out@ + #[trigger] rendered(t@, i as int, vs) == rendered(t@, 0, texts(values) + vs),
        decreases t@.len() - i,
    {
        let open = find_pair_at(&t, '{', i);
        proof {
            lemma_find_pair(t@, '{', i as int);
        }
        let close = match open {
            Some(o) => {
                proof {
                    lemma_find_pair(t@, '}', o + 2);
                }
                find_pair_at(&t, '}', o + 2)
            },
            None => None,
        };
        match (open, close) {
            (Some(o), Some(c)) => {
                proof {
                    assert(find_pair(t@, '}', o + 2) == c as int);
                    assert(c + 1 < t@.len());
                }
                let name = trimmed(&t, o + 2, c);
                let n = name.as_str();
                let value = resolve(n);
                proof {
                    assert(n@ == name@);
                    assert(resolved(resolve, name@, value));
                }
                let ghost before = out@;
                push_range(&mut out, &t, i, o);
                match &value {
                    Some(v) => out.append(v.as_str()),
                    None => push_range(&mut out, &t, o, c + 2),
                }
                proof {
                    let piece = if value is Some { value->Some_0@ } else { t@.subrange(o as int, c + 2) };
                    assert(out@ == before + t@.subrange(i as int, o as int) + piece);
                    assert forall|vs: Seq<Option<Seq<char>>>| out@ + #[trigger] rendered(t@, c + 2, vs)
                        == rendered(t@, 0, texts(values.push(value)) + vs) by {
                        let vs1 = seq![texts(seq![value])[0]] + vs;
                        assert(vs1.drop_first() =~= vs);
                        assert(texts(values.push(value)) + vs =~= texts(values) + vs1);
                        assert(before + rendered(t@, i as int, vs1) == rendered(t@, 0, texts(values) + vs1));
                    }
                    assert(placeholder_names(t@, i as int) == seq![name@] + placeholder_names(t@, c + 2));
                    assert(names.push(name@) + placeholder_names(t@, c + 2) =~= names + placeholder_names(t@, i as int));
                    values = values.push(value);
                    names = names.push(name@);
                }
                i = c + 2;
            },
            _ => {
                let ghost before = out@;
                push_range(&mut out, &t, i, t.len());
                proof {
                    assert(rendered(t@, i as int, Seq::empty()) == t@.subrange(i as int, t@.len() as int));
                    assert(texts(values) + Seq::<Option<Seq<char>>>::empty() =~= texts(values));
                    assert(before + rendered(t@, i as int, Seq::empty()) == rendered(t@, 0, texts(values) + Seq::empty()));
                    assert(placeholder_names(t@, i as int) =~= Seq::<Seq<char>>::empty());
                    assert(names + Seq::<Seq<char>>::empty() =~= names);
                }
                return out;
            },
        }
    }
}

} // verus!
