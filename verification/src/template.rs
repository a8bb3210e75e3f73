use vstd::prelude::*;

use crate::error::PromptedsError;
use crate::models::{Variable, VariableV};

verus! {

// ---------------------------------------------------------------------------
// The placeholder grammar
//
// A placeholder is `{{` , optional whitespace, an identifier matching
// `[a-zA-Z_][a-zA-Z0-9_]*`, optional whitespace, `}}`. Text that does not
// match this shape is literal. A template document is valid when every
// occurrence of `{{` begins a well-formed placeholder.
// ---------------------------------------------------------------------------

/// ASCII whitespace accepted inside the braces of a placeholder.
pub open spec fn is_space(c: char) -> bool {
    c == ' ' || c == '\t' || c == '\n' || c == '\r'
}

/// A character that may start an identifier.
pub open spec fn is_ident_start(c: char) -> bool {
    ||| 'a' as u32 <= c as u32 && c as u32 <= 'z' as u32
    ||| 'A' as u32 <= c as u32 && c as u32 <= 'Z' as u32
    ||| c == '_'
}

/// A character that may continue an identifier.
pub open spec fn is_ident_char(c: char) -> bool {
    is_ident_start(c) || ('0' as u32 <= c as u32 && c as u32 <= '9' as u32)
}

/// A valid variable name: an identifier of the grammar above.
pub open spec fn valid_variable_name(s: Seq<char>) -> bool {
    &&& s.len() >= 1
    &&& is_ident_start(s[0])
    &&& forall|i: int| 0 <= i < s.len() ==> is_ident_char(#[trigger] s[i])
}

/// The first index at or after `i` that does not hold whitespace (or the end
/// of the text).
pub open spec fn skip_spaces(s: Seq<char>, i: int) -> int
    decreases s.len() - i when 0 <= i <= s.len()
{
    if i >= s.len() {
        i
    } else if !is_space(s[i]) {
        i
    } else {
        skip_spaces(s, i + 1)
    }
}

/// The first index at or after `i` that does not hold an identifier
/// character (or the end of the text).
pub open spec fn ident_end(s: Seq<char>, i: int) -> int
    decreases s.len() - i when 0 <= i <= s.len()
{
    if i >= s.len() {
        i
    } else if !is_ident_char(s[i]) {
        i
    } else {
        ident_end(s, i + 1)
    }
}

pub proof fn lemma_skip_spaces(s: Seq<char>, i: int)
    requires
        0 <= i <= s.len(),
    ensures
        i <= skip_spaces(s, i) <= s.len(),
        forall|j: int| i <= j < skip_spaces(s, i) ==> is_space(#[trigger] s[j]),
        skip_spaces(s, i) < s.len() ==> !is_space(s[skip_spaces(s, i)]),
    decreases s.len() - i,
{
    if i < s.len() && is_space(s[i]) {
        lemma_skip_spaces(s, i + 1);
    }
}

pub proof fn lemma_ident_end(s: Seq<char>, i: int)
    requires
        0 <= i <= s.len(),
    ensures
        i <= ident_end(s, i) <= s.len(),
        forall|j: int| i <= j < ident_end(s, i) ==> is_ident_char(#[trigger] s[j]),
        ident_end(s, i) < s.len() ==> !is_ident_char(s[ident_end(s, i)]),
    decreases s.len() - i,
{
    if i < s.len() && is_ident_char(s[i]) {
        lemma_ident_end(s, i + 1);
    }
}

/// The placeholder starting at index `i`, if any: its variable name and the
/// index just past the closing `}}`.
pub open spec fn placeholder_at(s: Seq<char>, i: int) -> Option<(Seq<char>, int)>
    recommends
        0 <= i <= s.len(),
{
    if i + 2 <= s.len() && s[i] == '{' && s[i + 1] == '{' {
        let a = skip_spaces(s, i + 2);
        if a < s.len() && is_ident_start(s[a]) {
            let b = ident_end(s, a + 1);
            let c = skip_spaces(s, b);
            if c + 2 <= s.len() && s[c] == '}' && s[c + 1] == '}' {
                Some((s.subrange(a, b), c + 2))
            } else {
                None
            }
        } else {
            None
        }
    } else {
        None
    }
}

/// Shape facts about a recognized placeholder: where it ends, that its name
/// is a valid identifier, and that no character strictly inside it is `{`.
pub proof fn lemma_placeholder_at(s: Seq<char>, i: int)
    requires
        0 <= i <= s.len(),
        placeholder_at(s, i) is Some,
    ensures
        placeholder_at(s, i) matches Some(p) ==> {
            &&& i + 5 <= p.1 <= s.len()
            &&& valid_variable_name(p.0)
            &&& s[i] == '{' && s[i + 1] == '{'
            &&& s[p.1 - 1] == '}' && s[p.1 - 2] == '}'
            &&& forall|j: int| i + 2 <= j < p.1 ==> #[trigger] s[j] != '{'
        },
{
    let a = skip_spaces(s, i + 2);
    lemma_skip_spaces(s, i + 2);
    let b = ident_end(s, a + 1);
    lemma_ident_end(s, a + 1);
    let c = skip_spaces(s, b);
    lemma_skip_spaces(s, b);
    let p = placeholder_at(s, i)->Some_0;
    assert(p.0 =~= s.subrange(a, b));
    assert(is_ident_char(s[a]));
    assert forall|j: int| i + 2 <= j < p.1 implies #[trigger] s[j] != '{' by {
        if i + 2 <= j < a {
            assert(is_space(s[j]));
        }
        if a <= j < b {
            assert(is_ident_char(s[j]));
        }
        if b <= j < c {
            assert(is_space(s[j]));
        }
        if c <= j < p.1 {
            assert(s[j] == '}' || s[j] == '}');
        }
    }
    assert forall|k: int| 0 <= k < p.0.len() implies is_ident_char(#[trigger] p.0[k]) by {
        assert(p.0[k] == s[a + k]);
    }
}

/// All placeholder names of `s` from index `i` on, with repetitions, in
/// textual order. Scanning restarts just past each recognized placeholder
/// and advances one character over anything else.
pub open spec fn scan_names(s: Seq<char>, i: int) -> Seq<Seq<char>>
    decreases s.len() - i when 0 <= i <= s.len()
    via scan_names_decreases
{
    if i >= s.len() {
        Seq::empty()
    } else {
        match placeholder_at(s, i) {
            Some(p) => seq![p.0] + scan_names(s, p.1),
            None => scan_names(s, i + 1),
        }
    }
}

#[via_fn]
proof fn scan_names_decreases(s: Seq<char>, i: int) {
    if 0 <= i < s.len() && placeholder_at(s, i) is Some {
        lemma_placeholder_at(s, i);
    }
}

/// Keeps the first occurrence of each name not already in `seen`, in order.
pub open spec fn dedup_first(names: Seq<Seq<char>>, seen: Seq<Seq<char>>) -> Seq<Seq<char>>
    decreases names.len(),
{
    if names.len() == 0 {
        Seq::empty()
    } else if seen.contains(names[0]) {
        dedup_first(names.drop_first(), seen)
    } else {
        seq![names[0]] + dedup_first(names.drop_first(), seen.push(names[0]))
    }
}

/// The distinct placeholder names of a template, in first-occurrence order.
pub open spec fn spec_extract_variables(t: Seq<char>) -> Seq<Seq<char>> {
    dedup_first(scan_names(t, 0), Seq::empty())
}

/// A structurally valid template document: every occurrence of `{{` begins a
/// well-formed placeholder.
pub open spec fn valid_template(s: Seq<char>) -> bool {
    forall|i: int|
        0 <= i && i + 2 <= s.len() && s[i] == '{' && s[i + 1] == '{'
            ==> (#[trigger] placeholder_at(s, i)) is Some
}

/// The rendering of `s` from index `i` under the value mapping `m`: each
/// placeholder is replaced by its mapped value, or by the empty string when
/// its name is unmapped; everything else is copied.
pub open spec fn spec_render(s: Seq<char>, m: Map<Seq<char>, Seq<char>>, i: int) -> Seq<char>
    decreases s.len() - i when 0 <= i <= s.len()
    via spec_render_decreases
{
    if i >= s.len() {
        Seq::empty()
    } else {
        match placeholder_at(s, i) {
            Some(p) => (if m.dom().contains(p.0) {
                m[p.0]
            } else {
                Seq::empty()
            }) + spec_render(s, m, p.1),
            None => seq![s[i]] + spec_render(s, m, i + 1),
        }
    }
}

#[via_fn]
proof fn spec_render_decreases(s: Seq<char>, m: Map<Seq<char>, Seq<char>>, i: int) {
    if 0 <= i < s.len() && placeholder_at(s, i) is Some {
        lemma_placeholder_at(s, i);
    }
}

/// The mapping that a list of `(name, value)` bindings denotes; a later
/// binding for the same name wins.
pub open spec fn map_of(pairs: Seq<(Seq<char>, Seq<char>)>) -> Map<Seq<char>, Seq<char>>
    decreases pairs.len(),
{
    if pairs.len() == 0 {
        Map::empty()
    } else {
        map_of(pairs.drop_last()).insert(pairs.last().0, pairs.last().1)
    }
}

// ---------------------------------------------------------------------------
// Executable scanning
// ---------------------------------------------------------------------------

fn is_space_exec(c: char) -> (b: bool)
    ensures
        b == is_space(c),
{
    c == ' ' || c == '\t' || c == '\n' || c == '\r'
}

fn is_ident_start_exec(c: char) -> (b: bool)
    ensures
        b == is_ident_start(c),
{
    let u = c as u32;
    (97 <= u && u <= 122) || (65 <= u && u <= 90) || c == '_'
}

fn is_ident_char_exec(c: char) -> (b: bool)
    ensures
        b == is_ident_char(c),
{
    let u = c as u32;
    is_ident_start_exec(c) || (48 <= u && u <= 57)
}

/// The characters of `s` as a vector, for constant-time indexing.
pub(crate) fn to_chars(s: &str) -> (r: Vec<char>)
    ensures
        r@ == s@,
{
    let n = s.unicode_len();
    let mut r: Vec<char> = Vec::new();
    let mut i: usize = 0;
    while i < n
        invariant
            n == s@.len(),
            i <= n,
            r@.len() == i,
            forall|k: int| 0 <= k < i ==> r@[k] == s@[k],
        decreases n - i,
    {
        r.push(s.get_char(i));
        i += 1;
    }
    proof {
        assert(r@ =~= s@);
    }
    r
}

/// Matches a placeholder starting at `i`: returns the name's character range
/// and the index just past the closing braces.
fn try_placeholder(chars: &Vec<char>, i: usize) -> (r: Option<(usize, usize, usize)>)
    requires
        i < chars@.len(),
    ensures
        r is None ==> placeholder_at(chars@, i as int) is None,
        r matches Some(t) ==> {
            &&& placeholder_at(chars@, i as int)
                == Some((chars@.subrange(t.0 as int, t.1 as int), t.2 as int))
            &&& i + 2 <= t.0 <= t.1 < t.2 <= chars@.len()
        },
{
    let ghost s = chars@;
    let n = chars.len();
    if !(chars[i] == '{' && i + 1 < n && chars[i + 1] == '{') {
        return None;
    }
    let mut a = i + 2;
    while a < n && is_space_exec(chars[a])
        invariant
            s == chars@,
            n == s.len(),
            i + 2 <= a <= n,
            skip_spaces(s, i + 2) == skip_spaces(s, a as int),
        decreases n - a,
    {
        a += 1;
    }
    proof {
        assert(skip_spaces(s, a as int) == a);
    }
    if !(a < n && is_ident_start_exec(chars[a])) {
        return None;
    }
    let mut b = a + 1;
    while b < n && is_ident_char_exec(chars[b])
        invariant
            s == chars@,
            n == s.len(),
            a + 1 <= b <= n,
            ident_end(s, a + 1) == ident_end(s, b as int),
        decreases n - b,
    {
        b += 1;
    }
    proof {
        assert(ident_end(s, b as int) == b);
    }
    let mut c = b;
    while c < n && is_space_exec(chars[c])
        invariant
            s == chars@,
            n == s.len(),
            b <= c <= n,
            skip_spaces(s, b as int) == skip_spaces(s, c as int),
        decreases n - c,
    {
        c += 1;
    }
    proof {
        assert(skip_spaces(s, c as int) == c);
    }
    if c < n && chars[c] == '}' && c + 1 < n && chars[c + 1] == '}' {
        proof {
            lemma_ident_end(s, a + 1);
        }
        Some((a, b, c + 2))
    } else {
        None
    }
}

/// Whether some element of `v` has the view of `s`.
pub(crate) fn contains_name(v: &Vec<String>, s: &String) -> (b: bool)
    ensures
        b == v.deep_view().contains(s@),
{
    let mut j: usize = 0;
    while j < v.len()
        invariant
            j <= v@.len(),
            forall|k: int| 0 <= k < j ==> v@[k]@ != s@,
        decreases v@.len() - j,
    {
        if v[j] == *s {
            proof {
                assert(v.deep_view()[j as int] == s@);
            }
            return true;
        }
        j += 1;
    }
    proof {
        assert(forall|k: int| 0 <= k < v.deep_view().len() ==> v.deep_view()[k] != s@);
    }
    false
}

/// The value bound to `name` by `pairs`, under the last-binding-wins reading
/// that [`map_of`] gives the list.
fn lookup(pairs: &Vec<(String, String)>, name: &String) -> (r: Option<String>)
    ensures
        r is Some <==> map_of(pairs.deep_view()).dom().contains(name@),
        r matches Some(v) ==> v@ == map_of(pairs.deep_view())[name@],
{
    let ghost bv = pairs.deep_view();
    let mut found: Option<usize> = None;
    let mut j: usize = 0;
    while j < pairs.len()
        invariant
            bv == pairs.deep_view(),
            j <= bv.len(),
            found is None ==> !map_of(bv.take(j as int)).dom().contains(name@),
            found matches Some(k) ==> {
                &&& k < j
                &&& bv[k as int].0 == name@
                &&& map_of(bv.take(j as int)).dom().contains(name@)
                &&& map_of(bv.take(j as int))[name@] == bv[k as int].1
            },
        decreases bv.len() - j,
    {
        proof {
            let pre = bv.take(j as int + 1);
            assert(pre.drop_last() =~= bv.take(j as int));
            assert(pre.last() == bv[j as int]);
            assert(map_of(pre) == map_of(bv.take(j as int)).insert(bv[j as int].0, bv[j as int].1));
        }
        if pairs[j].0 == *name {
            found = Some(j);
        }
        j += 1;
    }
    proof {
        assert(bv.take(bv.len() as int) =~= bv);
    }
    match found {
        Some(k) => Some(pairs[k].1.clone()),
        None => None,
    }
}

// ---------------------------------------------------------------------------
// The engine
// ---------------------------------------------------------------------------

/// The names of `names` that the mapping `m` does not bind, in order.
pub open spec fn spec_missing(names: Seq<Seq<char>>, m: Map<Seq<char>, Seq<char>>) -> Seq<Seq<char>>
    decreases names.len(),
{
    if names.len() == 0 {
        Seq::empty()
    } else if m.dom().contains(names[0]) {
        spec_missing(names.drop_first(), m)
    } else {
        seq![names[0]] + spec_missing(names.drop_first(), m)
    }
}

/// Interprets the restricted `{{identifier}}` placeholder syntax: extraction
/// of variable names, structural validation, and substitution.
pub struct TemplateEngine {}

impl TemplateEngine {
    pub fn new() -> TemplateEngine {
        TemplateEngine {}
    }

    /// The distinct placeholder names of `template`, in first-occurrence
    /// order. Malformed placeholders are literal text, so this never fails.
    pub fn extract_variables(&self, template: &str) -> (r: Result<
        Vec<String>,
        PromptedsError,
    >)
        ensures
            r is Ok,
            r matches Ok(v) ==> v.deep_view() == spec_extract_variables(template@),
    {
        let ghost s = template@;
        let chars = to_chars(template);
        let n = chars.len();
        let mut out: Vec<String> = Vec::new();
        proof {
            assert(out.deep_view() =~= Seq::<Seq<char>>::empty());
            assert(Seq::<Seq<char>>::empty() + dedup_first(scan_names(s, 0), Seq::empty())
                =~= dedup_first(scan_names(s, 0), Seq::empty()));
        }
        let mut i: usize = 0;
        while i < n
            invariant
                s == template@,
                chars@ == s,
                n == s.len(),
                i <= n,
                spec_extract_variables(s) == out.deep_view() + dedup_first(
                    scan_names(s, i as int),
                    out.deep_view(),
                ),
            decreases n - i,
        {
            let ghost out0 = out.deep_view();
            match try_placeholder(&chars, i) {
                Some((a, b, end)) => {
                    let name_s = template.substring_char(a, b);
                    let name = String::from_str(name_s);
                    let ghost rest = scan_names(s, end as int);
                    proof {
                        assert(scan_names(s, i as int) == seq![name@] + rest);
                        assert((seq![name@] + rest)[0] == name@);
                        assert((seq![name@] + rest).drop_first() =~= rest);
                    }
                    if !contains_name(&out, &name) {
                        out.push(name);
                        proof {
                            assert(out.deep_view() =~= out0.push(name_s@));
                            assert(dedup_first(scan_names(s, i as int), out0) == seq![
                                name_s@,
                            ] + dedup_first(rest, out0.push(name_s@)));
                            assert(out0 + (seq![name_s@] + dedup_first(rest, out.deep_view()))
                                =~= out.deep_view() + dedup_first(rest, out.deep_view()));
                        }
                    } else {
                        proof {
                            assert(dedup_first(scan_names(s, i as int), out0) == dedup_first(
                                rest,
                                out0,
                            ));
                        }
                    }
                    i = end;
                }
                None => {
                    proof {
                        assert(scan_names(s, i as int) == scan_names(s, i as int + 1));
                    }
                    i += 1;
                }
            }
        }
        proof {
            assert(scan_names(s, n as int) =~= Seq::<Seq<char>>::empty());
            assert(out.deep_view() + dedup_first(Seq::empty(), out.deep_view())
                =~= out.deep_view());
        }
        Ok(out)
    }

    /// Checks that every `{{` in `template` begins a well-formed placeholder.
    pub fn validate_template(&self, template: &str) -> (r: Result<(), PromptedsError>)
        ensures
            r is Ok <==> valid_template(template@),
            r is Err ==> r matches Err(PromptedsError::TemplateValidation { .. }),
    {
        let ghost s = template@;
        let chars = to_chars(template);
        let n = chars.len();
        let mut i: usize = 0;
        while i < n
            invariant
                s == template@,
                chars@ == s,
                n == s.len(),
                i <= n,
                forall|j: int|
                    0 <= j && j + 2 <= s.len() && j < i && s[j] == '{' && s[j + 1] == '{'
                        ==> (#[trigger] placeholder_at(s, j)) is Some,
            decreases n - i,
        {
            match try_placeholder(&chars, i) {
                Some((_a, _b, end)) => {
                    proof {
                        lemma_placeholder_at(s, i as int);
                        assert forall|j: int|
                            0 <= j && j + 2 <= s.len() && j < end && s[j] == '{' && s[j + 1] == '{'
                                implies (#[trigger] placeholder_at(s, j)) is Some by {
                            if i < j {
                                if j == i + 1 {
                                    assert(s[i + 2] != '{');
                                    assert(false);
                                } else {
                                    assert(s[j] != '{');
                                    assert(false);
                                }
                            }
                        }
                    }
                    i = end;
                }
                None => {
                    if chars[i] == '{' && i + 1 < n && chars[i + 1] == '{' {
                        proof {
                            assert(placeholder_at(s, i as int) is None);
                            assert(!valid_template(s));
                        }
                        return Err(PromptedsError::TemplateValidation {
                            details: String::from_str("unclosed or malformed placeholder"),
                        });
                    }
                    i += 1;
                }
            }
        }
        Ok(())
    }

    /// Renders `template` under the given `(name, value)` bindings; a later
    /// binding for the same name wins, and an unbound placeholder renders as
    /// the empty string. Fails only on a structurally invalid template.
    pub fn render(&self, template: &str, variables: &Vec<(String, String)>) -> (r: Result<
        String,
        PromptedsError,
    >)
        ensures
            valid_template(template@) ==> (r matches Ok(out) && out@ == spec_render(
                template@,
                map_of(variables.deep_view()),
                0,
            )),
            !valid_template(template@) ==> r matches Err(
                PromptedsError::TemplateValidation { .. },
            ),
    {
        match self.validate_template(template) {
            Err(e) => {
                return Err(e);
            },
            Ok(_) => {},
        }
        let ghost s = template@;
        let ghost m = map_of(variables.deep_view());
        let chars = to_chars(template);
        let n = chars.len();
        let mut out = String::new();
        let mut i: usize = 0;
        while i < n
            invariant
                s == template@,
                chars@ == s,
                n == s.len(),
                i <= n,
                m == map_of(variables.deep_view()),
                spec_render(s, m, 0) == out@ + spec_render(s, m, i as int),
            decreases n - i,
        {
            let ghost prev = out@;
            match try_placeholder(&chars, i) {
                Some((a, b, end)) => {
                    let name_s = template.substring_char(a, b);
                    let name = String::from_str(name_s);
                    let ghost piece = if m.dom().contains(name@) {
                        m[name@]
                    } else {
                        Seq::<char>::empty()
                    };
                    match lookup(variables, &name) {
                        Some(val) => {
                            out.append(val.as_str());
                        },
                        None => {},
                    }
                    proof {
                        assert(out@ =~= prev + piece);
                        assert(spec_render(s, m, i as int) == piece + spec_render(
                            s,
                            m,
                            end as int,
                        ));
                        assert(prev + (piece + spec_render(s, m, end as int)) =~= (prev + piece)
                            + spec_render(s, m, end as int));
                    }
                    i = end;
                }
                None => {
                    let piece = template.substring_char(i, i + 1);
                    out.append(piece);
                    proof {
                        assert(piece@ =~= seq![s[i as int]]);
                        assert(spec_render(s, m, i as int) == seq![s[i as int]] + spec_render(
                            s,
                            m,
                            i as int + 1,
                        ));
                        assert(prev + (piece@ + spec_render(s, m, i as int + 1)) =~= (prev
                            + piece@) + spec_render(s, m, i as int + 1));
                    }
                    i += 1;
                }
            }
        }
        proof {
            assert(out@ + Seq::<char>::empty() =~= out@);
        }
        Ok(out)
    }

    /// The extracted variables of `template` that `provided` does not bind,
    /// in extraction order. Never fails.
    pub fn get_missing_variables(
        &self,
        template: &str,
        provided: &Vec<(String, String)>,
    ) -> (r: Result<Vec<String>, PromptedsError>)
        ensures
            r is Ok,
            r matches Ok(v) ==> v.deep_view() == spec_missing(
                spec_extract_variables(template@),
                map_of(provided.deep_view()),
            ),
    {
        let names = match self.extract_variables(template) {
            Ok(v) => v,
            Err(e) => {
                return Err(e);
            },
        };
        let ghost all = names.deep_view();
        let ghost m = map_of(provided.deep_view());
        let mut out: Vec<String> = Vec::new();
        proof {
            assert(out.deep_view() =~= Seq::<Seq<char>>::empty());
            assert(all.skip(0) =~= all);
            assert(Seq::<Seq<char>>::empty() + spec_missing(all, m) =~= spec_missing(all, m));
        }
        let mut k: usize = 0;
        while k < names.len()
            invariant
                all == names.deep_view(),
                m == map_of(provided.deep_view()),
                k <= all.len(),
                spec_missing(all, m) == out.deep_view() + spec_missing(all.skip(k as int), m),
            decreases all.len() - k,
        {
            let ghost out0 = out.deep_view();
            proof {
                assert(all.skip(k as int).len() > 0);
                assert(all.skip(k as int)[0] == all[k as int]);
                assert(all.skip(k as int).drop_first() =~= all.skip(k as int + 1));
            }
            match lookup(provided, &names[k]) {
                Some(_) => {
                    proof {
                        assert(spec_missing(all.skip(k as int), m) == spec_missing(
                            all.skip(k as int + 1),
                            m,
                        ));
                    }
                },
                None => {
                    let name = names[k].clone();
                    out.push(name);
                    proof {
                        assert(out.deep_view() =~= out0.push(all[k as int]));
                        assert(spec_missing(all.skip(k as int), m) == seq![all[k as int]]
                            + spec_missing(all.skip(k as int + 1), m));
                        assert(out0 + (seq![all[k as int]] + spec_missing(
                            all.skip(k as int + 1),
                            m,
                        )) =~= out.deep_view() + spec_missing(all.skip(k as int + 1), m));
                    }
                },
            }
            k += 1;
        }
        proof {
            assert(all.skip(all.len() as int) =~= Seq::<Seq<char>>::empty());
            assert(out.deep_view() + Seq::<Seq<char>>::empty() =~= out.deep_view());
        }
        Ok(out)
    }

    /// Checks the identifier grammar for a variable name; the empty string is
    /// always invalid.
    pub fn validate_variable_name(name: &str) -> (r: Result<(), PromptedsError>)
        ensures
            r is Ok <==> valid_variable_name(name@),
            r is Err ==> r matches Err(PromptedsError::InvalidVariableName { .. }),
    {
        let n = name.unicode_len();
        if n == 0 {
            return Err(PromptedsError::InvalidVariableName {
                name: String::from_str(name),
                reason: String::from_str("variable name cannot be empty"),
            });
        }
        if !is_ident_start_exec(name.get_char(0)) {
            return Err(PromptedsError::InvalidVariableName {
                name: String::from_str(name),
                reason: String::from_str(
                    "variable name must start with letter or underscore, followed by letters, numbers, or underscores",
                ),
            });
        }
        let mut i: usize = 1;
        while i < n
            invariant
                n == name@.len(),
                1 <= i <= n,
                is_ident_start(name@[0]),
                forall|k: int| 0 <= k < i ==> is_ident_char(#[trigger] name@[k]),
            decreases n - i,
        {
            if !is_ident_char_exec(name.get_char(i)) {
                return Err(PromptedsError::InvalidVariableName {
                    name: String::from_str(name),
                    reason: String::from_str(
                        "variable name must start with letter or underscore, followed by letters, numbers, or underscores",
                    ),
                });
            }
            i += 1;
        }
        Ok(())
    }

    /// The variable records for an edited content: one per extracted name, in
    /// extraction order, keeping the description and default of an existing
    /// record of the same name and otherwise starting fresh.
    pub fn rebuild_variables(&self, content: &str, existing: &Vec<Variable>) -> (r: Vec<Variable>)
        ensures
            r.deep_view() == spec_rebuild(
                spec_extract_variables(content@),
                existing.deep_view(),
            ),
    {
        let names = match self.extract_variables(content) {
            Ok(v) => v,
            Err(_) => unreached(),
        };
        let ghost all = names.deep_view();
        let ghost ex = existing.deep_view();
        let mut out: Vec<Variable> = Vec::new();
        let mut k: usize = 0;
        while k < names.len()
            invariant
                all == names.deep_view(),
                ex == existing.deep_view(),
                k <= all.len(),
                out.deep_view().len() == k,
                forall|l: int| 0 <= l < k ==> out.deep_view()[l] == spec_rebuild(all, ex)[l],
            decreases all.len() - k,
        {
            let ghost out0 = out.deep_view();
            match find_variable(existing, &names[k]) {
                Some(j) => {
                    let v = existing[j].duplicate();
                    out.push(v);
                    proof {
                        assert(out.deep_view() =~= out0.push(ex[j as int]));
                        assert(spec_rebuild(all, ex)[k as int] == ex[j as int]);
                    }
                },
                None => {
                    let name = names[k].clone();
                    out.push(Variable::new(name));
                    proof {
                        let fresh = VariableV {
                            name: all[k as int],
                            description: None,
                            default_value: None,
                        };
                        assert(out.deep_view() =~= out0.push(fresh));
                        assert(spec_rebuild(all, ex)[k as int] == fresh);
                    }
                },
            }
            k += 1;
        }
        proof {
            assert(out.deep_view() =~= spec_rebuild(all, ex));
        }
        out
    }
}

/// The first variable record of `vars` named `n`, if any.
pub open spec fn spec_find_variable(vars: Seq<VariableV>, n: Seq<char>) -> Option<VariableV>
    decreases vars.len(),
{
    if vars.len() == 0 {
        None
    } else if vars[0].name == n {
        Some(vars[0])
    } else {
        spec_find_variable(vars.drop_first(), n)
    }
}

/// The variable records that an edit derives for `names`: an existing record
/// of the same name where there is one, a fresh record otherwise.
pub open spec fn spec_rebuild(names: Seq<Seq<char>>, existing: Seq<VariableV>) -> Seq<VariableV> {
    names.map_values(
        |n: Seq<char>|
            match spec_find_variable(existing, n) {
                Some(v) => v,
                None => VariableV { name: n, description: None, default_value: None },
            },
    )
}

/// The index of the first variable of `existing` named like `name`.
fn find_variable(existing: &Vec<Variable>, name: &String) -> (r: Option<usize>)
    ensures
        r is None ==> spec_find_variable(existing.deep_view(), name@) is None,
        r matches Some(j) ==> {
            &&& j < existing.deep_view().len()
            &&& spec_find_variable(existing.deep_view(), name@)
                == Some(existing.deep_view()[j as int])
        },
{
    let ghost ex = existing.deep_view();
    proof {
        assert(ex.skip(0) =~= ex);
    }
    let mut j: usize = 0;
    while j < existing.len()
        invariant
            ex == existing.deep_view(),
            j <= ex.len(),
            spec_find_variable(ex, name@) == spec_find_variable(ex.skip(j as int), name@),
        decreases ex.len() - j,
    {
        proof {
            assert(ex.skip(j as int)[0] == ex[j as int]);
            assert(ex.skip(j as int).drop_first() =~= ex.skip(j as int + 1));
        }
        if existing[j].name == *name {
            return Some(j);
        }
        j += 1;
    }
    proof {
        assert(ex.skip(ex.len() as int) =~= Seq::<VariableV>::empty());
    }
    None
}

/// The mapping extended with the default value of each variable whose name it
/// does not yet bind; variables without a default add nothing.
pub open spec fn spec_with_defaults(
    m: Map<Seq<char>, Seq<char>>,
    vars: Seq<VariableV>,
) -> Map<Seq<char>, Seq<char>>
    decreases vars.len(),
{
    if vars.len() == 0 {
        m
    } else {
        let m2 = if !m.dom().contains(vars[0].name) && vars[0].default_value is Some {
            m.insert(vars[0].name, vars[0].default_value->Some_0)
        } else {
            m
        };
        spec_with_defaults(m2, vars.drop_first())
    }
}

/// Extends the `(name, value)` bindings with the default value of every
/// variable that has one and is not yet bound.
pub fn apply_defaults(variables: &Vec<Variable>, provided: &Vec<(String, String)>) -> (r: Vec<
    (String, String),
>)
    ensures
        map_of(r.deep_view()) == spec_with_defaults(
            map_of(provided.deep_view()),
            variables.deep_view(),
        ),
{
    let ghost vs = variables.deep_view();
    let mut out: Vec<(String, String)> = Vec::new();
    let mut j: usize = 0;
    while j < provided.len()
        invariant
            j <= provided@.len(),
            out@.len() == j,
            forall|l: int| 0 <= l < j ==> out.deep_view()[l] == provided.deep_view()[l],
        decreases provided@.len() - j,
    {
        let key = provided[j].0.clone();
        let value = provided[j].1.clone();
        out.push((key, value));
        j += 1;
    }
    proof {
        assert(out.deep_view() =~= provided.deep_view());
        assert(vs.skip(0) =~= vs);
    }
    let mut t: usize = 0;
    while t < variables.len()
        invariant
            vs == variables.deep_view(),
            t <= vs.len(),
            spec_with_defaults(map_of(provided.deep_view()), vs) == spec_with_defaults(
                map_of(out.deep_view()),
                vs.skip(t as int),
            ),
        decreases vs.len() - t,
    {
        let ghost out0 = out.deep_view();
        proof {
            assert(vs.skip(t as int)[0] == vs[t as int]);
            assert(vs.skip(t as int).drop_first() =~= vs.skip(t as int + 1));
        }
        match lookup(&out, &variables[t].name) {
            Some(_) => {},
            None => {
                match &variables[t].default_value {
                    Some(d) => {
                        let name = variables[t].name.clone();
                        let value = d.clone();
                        out.push((name, value));
                        proof {
                            let pushed = out.deep_view();
                            assert(pushed.drop_last() =~= out0);
                            assert(pushed.last() == (vs[t as int].name,
                                vs[t as int].default_value->Some_0));
                            assert(map_of(pushed) == map_of(out0).insert(
                                vs[t as int].name,
                                vs[t as int].default_value->Some_0,
                            ));
                        }
                    },
                    None => {},
                }
            },
        }
        t += 1;
    }
    proof {
        assert(vs.skip(vs.len() as int) =~= Seq::<VariableV>::empty());
    }
    out
}

// ---------------------------------------------------------------------------
// Laws
// ---------------------------------------------------------------------------

pub(crate) proof fn lemma_contains_head_tail<A>(s: Seq<A>, y: A)
    requires
        s.len() > 0,
    ensures
        s.contains(y) <==> (s[0] == y || s.drop_first().contains(y)),
{
    if s.contains(y) {
        let i = choose|i: int| 0 <= i < s.len() && s[i] == y;
        if i > 0 {
            assert(s.drop_first()[i - 1] == y);
        }
    }
    if s.drop_first().contains(y) {
        let i = choose|i: int| 0 <= i < s.drop_first().len() && s.drop_first()[i] == y;
        assert(s[i + 1] == y);
    }
}

pub(crate) proof fn lemma_dedup_first_distinct(names: Seq<Seq<char>>, seen: Seq<Seq<char>>)
    ensures
        forall|y: Seq<char>| #[trigger]
            dedup_first(names, seen).contains(y) ==> !seen.contains(y),
        forall|i: int, j: int|
            0 <= i < j < dedup_first(names, seen).len() ==> dedup_first(names, seen)[i]
                != dedup_first(names, seen)[j],
    decreases names.len(),
{
    if names.len() == 0 {
    } else if seen.contains(names[0]) {
        lemma_dedup_first_distinct(names.drop_first(), seen);
        assert(dedup_first(names, seen) == dedup_first(names.drop_first(), seen));
    } else {
        let x = names[0];
        let r = dedup_first(names.drop_first(), seen.push(x));
        let d = dedup_first(names, seen);
        lemma_dedup_first_distinct(names.drop_first(), seen.push(x));
        assert(d == seq![x] + r);
        assert forall|y: Seq<char>| #[trigger] d.contains(y) implies !seen.contains(y) by {
            let i = choose|i: int| 0 <= i < d.len() && d[i] == y;
            if i == 0 {
                assert(y == x);
            } else {
                assert(r[i - 1] == y);
                assert(r.contains(y));
                if seen.contains(y) {
                    let k = choose|k: int| 0 <= k < seen.len() && seen[k] == y;
                    assert(seen.push(x)[k] == y);
                    assert(seen.push(x).contains(y));
                }
            }
        }
        assert(seen.push(x)[seen.len() as int] == x);
        assert(seen.push(x).contains(x));
        assert forall|i: int, j: int| 0 <= i < j < d.len() implies d[i] != d[j] by {
            if i == 0 {
                assert(d[j] == r[j - 1]);
                if d[j] == x {
                    assert(r.contains(x));
                }
            } else {
                assert(d[i] == r[i - 1] && d[j] == r[j - 1]);
            }
        }
    }
}

/// Law: extraction returns distinct names — no name appears twice in the
/// result. (It is also idempotent: the result is a function of the template
/// text alone, so two extractions of the same text agree.)
pub proof fn lemma_extract_variables_distinct(t: Seq<char>)
    ensures
        forall|i: int, j: int|
            0 <= i < j < spec_extract_variables(t).len() ==> spec_extract_variables(t)[i]
                != spec_extract_variables(t)[j],
{
    lemma_dedup_first_distinct(scan_names(t, 0), Seq::empty());
}

/// The index of the first occurrence of `x` in `names`, or -1.
pub open spec fn first_occurrence(names: Seq<Seq<char>>, x: Seq<char>) -> int
    decreases names.len(),
{
    if names.len() == 0 {
        -1
    } else if names[0] == x {
        0
    } else {
        let r = first_occurrence(names.drop_first(), x);
        if r == -1 {
            -1
        } else {
            r + 1
        }
    }
}

proof fn lemma_first_occurrence_nonneg(names: Seq<Seq<char>>, x: Seq<char>)
    requires
        names.contains(x),
    ensures
        first_occurrence(names, x) >= 0,
    decreases names.len(),
{
    if names.len() > 0 && names[0] != x {
        lemma_contains_head_tail(names, x);
        lemma_first_occurrence_nonneg(names.drop_first(), x);
    }
}

proof fn lemma_dedup_first_order_pair(names: Seq<Seq<char>>, seen: Seq<Seq<char>>, i: int, j: int)
    requires
        0 <= i < j < dedup_first(names, seen).len(),
    ensures
        0 <= first_occurrence(names, dedup_first(names, seen)[i]),
        first_occurrence(names, dedup_first(names, seen)[i]) < first_occurrence(
            names,
            dedup_first(names, seen)[j],
        ),
    decreases names.len(),
{
    let d = dedup_first(names, seen);
    let x = names[0];
    let rest = names.drop_first();
    lemma_dedup_first_distinct(names, seen);
    lemma_dedup_first_subset(names, seen);
    if seen.contains(x) {
        let r = dedup_first(rest, seen);
        assert(d == r);
        lemma_dedup_first_order_pair(rest, seen, i, j);
        lemma_dedup_first_distinct(rest, seen);
        assert(r.contains(r[i]));
        assert(r.contains(r[j]));
        assert(!seen.contains(r[i]));
        assert(!seen.contains(r[j]));
        assert(r[i] != x && r[j] != x);
        assert(first_occurrence(names, d[i]) == 1 + first_occurrence(rest, r[i]));
        assert(first_occurrence(names, d[j]) == 1 + first_occurrence(rest, r[j]));
    } else {
        let r = dedup_first(rest, seen.push(x));
        assert(d == seq![x] + r);
        lemma_dedup_first_distinct(rest, seen.push(x));
        lemma_dedup_first_subset(rest, seen.push(x));
        assert(seen.push(x)[seen.len() as int] == x);
        assert(seen.push(x).contains(x));
        assert(d[j] == r[j - 1]);
        assert(r.contains(r[j - 1]));
        assert(rest.contains(r[j - 1]));
        lemma_first_occurrence_nonneg(rest, r[j - 1]);
        assert(!seen.push(x).contains(r[j - 1]));
        assert(r[j - 1] != x);
        assert(first_occurrence(names, d[j]) == 1 + first_occurrence(rest, r[j - 1]));
        if i == 0 {
            assert(d[0] == x);
            assert(first_occurrence(names, x) == 0);
        } else {
            assert(d[i] == r[i - 1]);
            assert(r.contains(r[i - 1]));
            assert(rest.contains(r[i - 1]));
            lemma_first_occurrence_nonneg(rest, r[i - 1]);
            assert(!seen.push(x).contains(r[i - 1]));
            assert(r[i - 1] != x);
            lemma_dedup_first_order_pair(rest, seen.push(x), i - 1, j - 1);
            assert(first_occurrence(names, d[i]) == 1 + first_occurrence(rest, r[i - 1]));
        }
    }
}

pub proof fn lemma_dedup_first_subset(names: Seq<Seq<char>>, seen: Seq<Seq<char>>)
    ensures
        forall|y: Seq<char>| #[trigger]
            dedup_first(names, seen).contains(y) ==> names.contains(y),
    decreases names.len(),
{
    if names.len() == 0 {
    } else if seen.contains(names[0]) {
        lemma_dedup_first_subset(names.drop_first(), seen);
        assert(dedup_first(names, seen) == dedup_first(names.drop_first(), seen));
        assert forall|y: Seq<char>| #[trigger]
            dedup_first(names, seen).contains(y) implies names.contains(y) by {
            assert(dedup_first(names.drop_first(), seen).contains(y));
            lemma_contains_head_tail(names, y);
        }
    } else {
        let x = names[0];
        let r = dedup_first(names.drop_first(), seen.push(x));
        lemma_dedup_first_subset(names.drop_first(), seen.push(x));
        assert forall|y: Seq<char>| #[trigger]
            dedup_first(names, seen).contains(y) implies names.contains(y) by {
            let d = dedup_first(names, seen);
            let i = choose|i: int| 0 <= i < d.len() && d[i] == y;
            if i == 0 {
                assert(names[0] == y);
            } else {
                assert(r[i - 1] == y);
                assert(r.contains(y));
            }
            lemma_contains_head_tail(names, y);
        }
    }
}

/// Law: extraction returns names in first-occurrence order — for any two
/// positions `i < j` of the result, the name at `i` first occurs in the
/// template's placeholder scan strictly before the name at `j` does.
pub proof fn lemma_extract_variables_first_occurrence_order(t: Seq<char>, i: int, j: int)
    requires
        0 <= i < j < spec_extract_variables(t).len(),
    ensures
        0 <= first_occurrence(scan_names(t, 0), spec_extract_variables(t)[i]),
        first_occurrence(scan_names(t, 0), spec_extract_variables(t)[i]) < first_occurrence(
            scan_names(t, 0),
            spec_extract_variables(t)[j],
        ),
{
    lemma_dedup_first_order_pair(scan_names(t, 0), Seq::empty(), i, j);
}

proof fn lemma_no_scan_renders_identically(
    t: Seq<char>,
    m: Map<Seq<char>, Seq<char>>,
    i: int,
)
    requires
        0 <= i <= t.len(),
        scan_names(t, i).len() == 0,
    ensures
        spec_render(t, m, i) == t.skip(i),
    decreases t.len() - i,
{
    if i >= t.len() {
        assert(t.skip(i) =~= Seq::<char>::empty());
    } else {
        match placeholder_at(t, i) {
            Some(p) => {
                assert(scan_names(t, i).len() >= 1);
            },
            None => {
                lemma_no_scan_renders_identically(t, m, i + 1);
                assert(t.skip(i) =~= seq![t[i]] + t.skip(i + 1));
            },
        }
    }
}

/// Law: a template with no placeholders renders to itself, under any value
/// mapping. (Rendering a template with placeholders substitutes each of them
/// by definition of `spec_render`, and `render` succeeds on every valid
/// template; on an invalid document such as a lone `{{` rendering fails
/// instead, so validity is the premise of that clause.)
pub proof fn lemma_render_no_placeholders(t: Seq<char>, m: Map<Seq<char>, Seq<char>>)
    requires
        spec_extract_variables(t).len() == 0,
    ensures
        spec_render(t, m, 0) == t,
{
    if scan_names(t, 0).len() > 0 {
        assert(!Seq::<Seq<char>>::empty().contains(scan_names(t, 0)[0]));
        assert(dedup_first(scan_names(t, 0), Seq::empty()).len() >= 1);
    }
    lemma_no_scan_renders_identically(t, m, 0);
    assert(t.skip(0) =~= t);
}

proof fn lemma_missing_contains(names: Seq<Seq<char>>, m: Map<Seq<char>, Seq<char>>)
    ensures
        forall|y: Seq<char>| #[trigger]
            spec_missing(names, m).contains(y) <==> (names.contains(y) && !m.dom().contains(y)),
    decreases names.len(),
{
    if names.len() == 0 {
    } else {
        lemma_missing_contains(names.drop_first(), m);
        assert forall|y: Seq<char>|
            #[trigger] spec_missing(names, m).contains(y) <==> (names.contains(y)
                && !m.dom().contains(y)) by {
            lemma_contains_head_tail(names, y);
            let d = spec_missing(names, m);
            if m.dom().contains(names[0]) {
                assert(d == spec_missing(names.drop_first(), m));
                if names.contains(y) && !m.dom().contains(y) {
                    assert(y != names[0]);
                }
            } else {
                let r = spec_missing(names.drop_first(), m);
                assert(d == seq![names[0]] + r);
                if d.contains(y) {
                    let i = choose|i: int| 0 <= i < d.len() && d[i] == y;
                    if i == 0 {
                        assert(y == names[0]);
                    } else {
                        assert(r[i - 1] == y);
                        assert(r.contains(y));
                    }
                }
                if names.contains(y) && !m.dom().contains(y) {
                    if y == names[0] {
                        assert(d[0] == y);
                        assert(d.contains(y));
                    } else {
                        assert(r.contains(y));
                        let i = choose|i: int| 0 <= i < r.len() && r[i] == y;
                        assert(d[i + 1] == y);
                        assert(d.contains(y));
                    }
                }
            }
        }
    }
}

/// Law: the missing variables of a template are exactly its extracted
/// variables minus the provided names, as sets.
pub proof fn lemma_missing_variables_set(t: Seq<char>, m: Map<Seq<char>, Seq<char>>)
    ensures
        spec_missing(spec_extract_variables(t), m).to_set() == spec_extract_variables(
            t,
        ).to_set().difference(m.dom()),
{
    lemma_missing_contains(spec_extract_variables(t), m);
    assert(spec_missing(spec_extract_variables(t), m).to_set() =~= spec_extract_variables(
        t,
    ).to_set().difference(m.dom()));
}

} // verus!
