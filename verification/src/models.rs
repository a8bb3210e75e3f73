use vstd::prelude::*;

use crate::error::PromptedsError;
use crate::sys;

verus! {

// ---------------------------------------------------------------------------
// Data model
// ---------------------------------------------------------------------------

/// A placeholder variable of a prompt: its name, an optional free-text
/// description, and an optional default value substituted at render time when
/// no value is supplied.
#[derive(Debug, Clone)]
pub struct Variable {
    pub name: String,
    pub description: Option<String>,
    pub default_value: Option<String>,
}

/// A named template. `variables` holds one record per distinct placeholder
/// name appearing in `content`; `tags` is a set-like list of tag names.
/// Timestamps are milliseconds since the Unix epoch.
#[derive(Debug, Clone)]
pub struct Prompt {
    pub id: String,
    pub name: String,
    pub content: String,
    pub variables: Vec<Variable>,
    pub tags: Vec<String>,
    pub created_at: i64,
    pub updated_at: i64,
}

/// A cheap listing projection of a prompt: no content, only counts and
/// timestamps.
#[derive(Debug, Clone)]
pub struct PromptSummary {
    pub name: String,
    pub variable_count: usize,
    pub tag_count: usize,
    pub created_at: i64,
    pub updated_at: i64,
}

/// One search hit: the full prompt, a relevance score (the number of tokens
/// of the prompt's name and content that also occur in the query; higher is
/// better, results are returned best first), and, when highlighting was
/// requested, the content with every matching token wrapped in
/// `<mark>`/`</mark>`.
#[derive(Debug, Clone)]
pub struct SearchResult {
    pub prompt: Prompt,
    pub score: usize,
    pub highlighted_content: Option<String>,
}

/// The import/export document: a format version, the export time, and the
/// full prompt entities.
#[derive(Debug, Clone)]
pub struct ExportData {
    pub version: String,
    pub exported_at: i64,
    pub prompts: Vec<Prompt>,
}

// ---------------------------------------------------------------------------
// Mathematical views
// ---------------------------------------------------------------------------

/// The mathematical value of a [`Variable`].
pub struct VariableV {
    pub name: Seq<char>,
    pub description: Option<Seq<char>>,
    pub default_value: Option<Seq<char>>,
}

/// The mathematical value of a [`Prompt`].
pub struct PromptV {
    pub id: Seq<char>,
    pub name: Seq<char>,
    pub content: Seq<char>,
    pub variables: Seq<VariableV>,
    pub tags: Seq<Seq<char>>,
    pub created_at: int,
    pub updated_at: int,
}

/// The mathematical value of a [`PromptSummary`].
pub struct PromptSummaryV {
    pub name: Seq<char>,
    pub variable_count: nat,
    pub tag_count: nat,
    pub created_at: int,
    pub updated_at: int,
}

impl View for Variable {
    type V = VariableV;

    open spec fn view(&self) -> VariableV {
        VariableV {
            name: self.name@,
            description: self.description.deep_view(),
            default_value: self.default_value.deep_view(),
        }
    }
}

impl DeepView for Variable {
    type V = VariableV;

    open spec fn deep_view(&self) -> VariableV {
        self.view()
    }
}

impl View for Prompt {
    type V = PromptV;

    open spec fn view(&self) -> PromptV {
        PromptV {
            id: self.id@,
            name: self.name@,
            content: self.content@,
            variables: self.variables.deep_view(),
            tags: self.tags.deep_view(),
            created_at: self.created_at as int,
            updated_at: self.updated_at as int,
        }
    }
}

impl DeepView for Prompt {
    type V = PromptV;

    open spec fn deep_view(&self) -> PromptV {
        self.view()
    }
}

/// The mathematical value of a [`SearchResult`].
pub struct SearchResultV {
    pub prompt: PromptV,
    pub score: nat,
    pub highlighted_content: Option<Seq<char>>,
}

impl View for SearchResult {
    type V = SearchResultV;

    open spec fn view(&self) -> SearchResultV {
        SearchResultV {
            prompt: self.prompt.view(),
            score: self.score as nat,
            highlighted_content: self.highlighted_content.deep_view(),
        }
    }
}

impl DeepView for SearchResult {
    type V = SearchResultV;

    open spec fn deep_view(&self) -> SearchResultV {
        self.view()
    }
}

impl View for PromptSummary {
    type V = PromptSummaryV;

    open spec fn view(&self) -> PromptSummaryV {
        PromptSummaryV {
            name: self.name@,
            variable_count: self.variable_count as nat,
            tag_count: self.tag_count as nat,
            created_at: self.created_at as int,
            updated_at: self.updated_at as int,
        }
    }
}

impl DeepView for PromptSummary {
    type V = PromptSummaryV;

    open spec fn deep_view(&self) -> PromptSummaryV {
        self.view()
    }
}

/// The summary projection of a prompt.
pub open spec fn spec_summary(p: PromptV) -> PromptSummaryV {
    PromptSummaryV {
        name: p.name,
        variable_count: p.variables.len(),
        tag_count: p.tags.len(),
        created_at: p.created_at,
        updated_at: p.updated_at,
    }
}

// ---------------------------------------------------------------------------
// Constructors
// ---------------------------------------------------------------------------

impl Variable {
    pub fn new(name: String) -> (r: Variable)
        ensures
            r@.name == name@,
            r@.description is None,
            r@.default_value is None,
    {
        Variable { name, description: None, default_value: None }
    }

    pub fn with_description(self, description: String) -> (r: Variable)
        ensures
            r@.name == self@.name,
            r@.description == Some(description@),
            r@.default_value == self@.default_value,
    {
        Variable { description: Some(description), ..self }
    }

    pub fn with_default(self, default_value: String) -> (r: Variable)
        ensures
            r@.name == self@.name,
            r@.description == self@.description,
            r@.default_value == Some(default_value@),
    {
        Variable { default_value: Some(default_value), ..self }
    }

    /// A deep copy with the same mathematical value.
    pub fn duplicate(&self) -> (r: Variable)
        ensures
            r@ == self@,
    {
        Variable {
            name: self.name.clone(),
            description: match &self.description {
                Some(d) => Some(d.clone()),
                None => None,
            },
            default_value: match &self.default_value {
                Some(d) => Some(d.clone()),
                None => None,
            },
        }
    }
}

impl Prompt {
    /// A new prompt with a freshly generated id, no variables or tags, and
    /// both timestamps set to the current time.
    pub fn new(name: String, content: String) -> (r: Prompt)
        ensures
            r@.name == name@,
            r@.content == content@,
            r@.variables.len() == 0,
            r@.tags.len() == 0,
            r@.created_at == r@.updated_at,
            r@.id.len() == 36,
    {
        let id = sys::fresh_id();
        let now = sys::now_millis();
        Prompt {
            id,
            name,
            content,
            variables: Vec::new(),
            tags: Vec::new(),
            created_at: now,
            updated_at: now,
        }
    }

    pub fn with_variables(self, variables: Vec<Variable>) -> (r: Prompt)
        ensures
            r@ == (PromptV { variables: variables.deep_view(), ..self@ }),
    {
        Prompt { variables, ..self }
    }

    pub fn with_tags(self, tags: Vec<String>) -> (r: Prompt)
        ensures
            r@ == (PromptV { tags: tags.deep_view(), ..self@ }),
    {
        Prompt { tags, ..self }
    }

    /// A deep copy with the same mathematical value.
    pub fn duplicate(&self) -> (r: Prompt)
        ensures
            r@ == self@,
    {
        let mut variables: Vec<Variable> = Vec::new();
        let mut i: usize = 0;
        while i < self.variables.len()
            invariant
                i <= self.variables.len(),
                variables@.len() == i,
                forall|k: int| 0 <= k < i ==> variables@[k]@ == self.variables@[k]@,
            decreases self.variables.len() - i,
        {
            let v = self.variables[i].duplicate();
            variables.push(v);
            i += 1;
        }
        let mut tags: Vec<String> = Vec::new();
        let mut j: usize = 0;
        while j < self.tags.len()
            invariant
                j <= self.tags.len(),
                tags@.len() == j,
                forall|k: int| 0 <= k < j ==> tags@[k]@ == self.tags@[k]@,
            decreases self.tags.len() - j,
        {
            tags.push(self.tags[j].clone());
            j += 1;
        }
        proof {
            assert(variables.deep_view() =~= self.variables.deep_view());
            assert(tags.deep_view() =~= self.tags.deep_view());
        }
        Prompt {
            id: self.id.clone(),
            name: self.name.clone(),
            content: self.content.clone(),
            variables,
            tags,
            created_at: self.created_at,
            updated_at: self.updated_at,
        }
    }
}

// ---------------------------------------------------------------------------
// Name validation and key=value parsing
// ---------------------------------------------------------------------------

/// A character accepted in a prompt name: ASCII letters, digits, hyphen,
/// underscore.
pub open spec fn is_name_char(c: char) -> bool {
    ||| 'a' as u32 <= c as u32 && c as u32 <= 'z' as u32
    ||| 'A' as u32 <= c as u32 && c as u32 <= 'Z' as u32
    ||| '0' as u32 <= c as u32 && c as u32 <= '9' as u32
    ||| c == '-'
    ||| c == '_'
}

/// A valid prompt name: 1 to 100 characters, each a name character.
pub open spec fn valid_prompt_name(s: Seq<char>) -> bool {
    &&& 1 <= s.len() <= 100
    &&& forall|i: int| 0 <= i < s.len() ==> is_name_char(#[trigger] s[i])
}

/// Checks the prompt-name grammar: rejects the empty string, names longer
/// than 100 characters, and any character outside letters, digits, hyphen and
/// underscore.
pub fn validate_prompt_name(name: &str) -> (r: Result<(), PromptedsError>)
    ensures
        r is Ok <==> valid_prompt_name(name@),
        r is Err ==> r matches Err(PromptedsError::InvalidPromptName { .. }),
{
    let n = name.unicode_len();
    if n == 0 {
        return Err(PromptedsError::InvalidPromptName {
            reason: String::from_str("name cannot be empty"),
        });
    }
    if n > 100 {
        return Err(PromptedsError::InvalidPromptName {
            reason: String::from_str("name too long (max 100 characters)"),
        });
    }
    let mut i: usize = 0;
    while i < n
        invariant
            n == name@.len(),
            i <= n,
            forall|k: int| 0 <= k < i ==> is_name_char(#[trigger] name@[k]),
        decreases n - i,
    {
        let c = name.get_char(i);
        let u = c as u32;
        let ok = (97 <= u && u <= 122) || (65 <= u && u <= 90) || (48 <= u && u <= 57)
            || c == '-' || c == '_';
        if !ok {
            return Err(PromptedsError::InvalidPromptName {
                reason: String::from_str(
                    "name can only contain letters, numbers, hyphens, and underscores",
                ),
            });
        }
        i += 1;
    }
    Ok(())
}

/// The first index of `c` in `s` at or after `i`, or -1 if there is none.
pub open spec fn spec_find_char(s: Seq<char>, c: char, i: int) -> int
    decreases s.len() - i when 0 <= i <= s.len()
{
    if i >= s.len() {
        -1
    } else if s[i] == c {
        i
    } else {
        spec_find_char(s, c, i + 1)
    }
}

proof fn lemma_find_char(s: Seq<char>, c: char, i: int)
    requires
        0 <= i <= s.len(),
    ensures
        spec_find_char(s, c, i) == -1 ==> forall|k: int| i <= k < s.len() ==> s[k] != c,
        spec_find_char(s, c, i) != -1 ==> {
            &&& i <= spec_find_char(s, c, i) < s.len()
            &&& s[spec_find_char(s, c, i)] == c
            &&& forall|k: int| i <= k < spec_find_char(s, c, i) ==> s[k] != c
        },
    decreases s.len() - i,
{
    if i < s.len() && s[i] != c {
        lemma_find_char(s, c, i + 1);
    }
}

/// Splits a `key=value` argument at the first `=`. Fails when the string
/// holds no `=` at all.
pub fn parse_variable(s: &str) -> (r: Result<(String, String), PromptedsError>)
    ensures
        r is Ok <==> spec_find_char(s@, '=', 0) != -1,
        r matches Ok(kv) ==> {
            &&& kv.0@ == s@.subrange(0, spec_find_char(s@, '=', 0))
            &&& kv.1@ == s@.subrange(spec_find_char(s@, '=', 0) + 1, s@.len() as int)
        },
        r is Err ==> r matches Err(PromptedsError::InvalidVariableName { .. }),
{
    proof {
        lemma_find_char(s@, '=', 0);
    }
    let n = s.unicode_len();
    let mut i: usize = 0;
    while i < n
        invariant
            n == s@.len(),
            i <= n,
            forall|k: int| 0 <= k < i ==> s@[k] != '=',
            spec_find_char(s@, '=', 0) != -1 ==> i <= spec_find_char(s@, '=', 0),
        decreases n - i,
    {
        proof {
            lemma_find_char(s@, '=', 0);
        }
        if s.get_char(i) == '=' {
            let key = s.substring_char(0, i);
            let value = s.substring_char(i + 1, n);
            proof {
                lemma_find_char(s@, '=', 0);
                assert(spec_find_char(s@, '=', 0) == i);
            }
            return Ok((String::from_str(key), String::from_str(value)));
        }
        i += 1;
    }
    proof {
        lemma_find_char(s@, '=', 0);
    }
    Err(PromptedsError::InvalidVariableName {
        name: String::from_str(s),
        reason: String::from_str("variable must be in key=value format"),
    })
}

} // verus!
