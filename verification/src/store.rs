use vstd::prelude::*;

use crate::error::PromptedsError;
use crate::models::{Prompt, PromptSummary, PromptSummaryV, PromptV, Variable, VariableV};
use crate::template::{contains_name, dedup_first, lemma_contains_head_tail,
    lemma_dedup_first_distinct, lemma_dedup_first_subset};

verus! {

/// The compiled-in schema version of the store layout.
pub const SCHEMA_VERSION: i32 = 1;

/// The mathematical state of the store: the prompt rows and the global tag
/// registry.
pub struct StoreV {
    pub prompts: Seq<PromptV>,
    pub tags: Seq<Seq<char>>,
}

/// Pairwise distinctness of a sequence of strings.
pub open spec fn distinct_seqs(s: Seq<Seq<char>>) -> bool {
    forall|i: int, j: int| #![trigger s[i], s[j]] 0 <= i < j < s.len() ==> s[i] != s[j]
}

/// Pairwise distinctness of variable names, as the schema's per-prompt
/// uniqueness constraint demands.
pub open spec fn distinct_var_names(vars: Seq<VariableV>) -> bool {
    forall|i: int, j: int|
        #![trigger vars[i], vars[j]]
        0 <= i < j < vars.len() ==> vars[i].name != vars[j].name
}

/// Schema constraints on a stored prompt row: field lengths, unique variable
/// names, unique tag links.
pub open spec fn wf_prompt(p: PromptV) -> bool {
    &&& 1 <= p.name.len() <= 100
    &&& 1 <= p.content.len() <= 100000
    &&& distinct_var_names(p.variables)
    &&& distinct_seqs(p.tags)
}

/// The store invariant: unique prompt names and ids, well-formed rows, every
/// linked tag registered, and a duplicate-free registry.
pub open spec fn wf_store(s: StoreV) -> bool {
    &&& forall|i: int, j: int|
        #![trigger s.prompts[i], s.prompts[j]]
        0 <= i < j < s.prompts.len() ==> s.prompts[i].name != s.prompts[j].name
            && s.prompts[i].id != s.prompts[j].id
    &&& forall|i: int| 0 <= i < s.prompts.len() ==> wf_prompt(#[trigger] s.prompts[i])
    &&& forall|i: int, k: int|
        #![trigger s.prompts[i].tags[k]]
        0 <= i < s.prompts.len() && 0 <= k < s.prompts[i].tags.len() ==> s.tags.contains(
            s.prompts[i].tags[k],
        )
    &&& distinct_seqs(s.tags)
}

/// The first index at or after `i` of a prompt named `name`, or -1.
pub open spec fn find_from(ps: Seq<PromptV>, name: Seq<char>, i: int) -> int
    decreases ps.len() - i when 0 <= i <= ps.len()
{
    if i >= ps.len() {
        -1
    } else if ps[i].name == name {
        i
    } else {
        find_from(ps, name, i + 1)
    }
}

/// The first index of a prompt named `name`, or -1.
pub open spec fn find_prompt(ps: Seq<PromptV>, name: Seq<char>) -> int {
    find_from(ps, name, 0)
}

/// Whether some prompt is named `name`.
pub open spec fn name_taken(ps: Seq<PromptV>, name: Seq<char>) -> bool {
    exists|i: int| 0 <= i < ps.len() && (#[trigger] ps[i]).name == name
}

/// Whether some prompt has the id `id`.
pub open spec fn id_taken(ps: Seq<PromptV>, id: Seq<char>) -> bool {
    exists|i: int| 0 <= i < ps.len() && (#[trigger] ps[i]).id == id
}

pub proof fn lemma_find_from(ps: Seq<PromptV>, name: Seq<char>, i: int)
    requires
        0 <= i <= ps.len(),
    ensures
        find_from(ps, name, i) == -1 ==> forall|j: int|
            i <= j < ps.len() ==> (#[trigger] ps[j]).name != name,
        find_from(ps, name, i) != -1 ==> {
            &&& i <= find_from(ps, name, i) < ps.len()
            &&& ps[find_from(ps, name, i)].name == name
            &&& forall|j: int| i <= j < find_from(ps, name, i) ==> (#[trigger] ps[j]).name != name
        },
    decreases ps.len() - i,
{
    if i < ps.len() && ps[i].name != name {
        lemma_find_from(ps, name, i + 1);
    }
}

pub proof fn lemma_find_prompt(ps: Seq<PromptV>, name: Seq<char>)
    ensures
        name_taken(ps, name) <==> find_prompt(ps, name) >= 0,
        find_prompt(ps, name) >= 0 ==> {
            &&& find_prompt(ps, name) < ps.len()
            &&& ps[find_prompt(ps, name)].name == name
        },
{
    lemma_find_from(ps, name, 0);
}

/// The registry extended, in order, with each tag not yet present.
pub open spec fn register_tags(reg: Seq<Seq<char>>, tags: Seq<Seq<char>>) -> Seq<Seq<char>>
    decreases tags.len(),
{
    if tags.len() == 0 {
        reg
    } else {
        let reg2 = if reg.contains(tags[0]) {
            reg
        } else {
            reg.push(tags[0])
        };
        register_tags(reg2, tags.drop_first())
    }
}

pub proof fn lemma_register_tags(reg: Seq<Seq<char>>, tags: Seq<Seq<char>>)
    ensures
        forall|x: Seq<char>| #[trigger]
            register_tags(reg, tags).contains(x) <==> (reg.contains(x) || tags.contains(x)),
        distinct_seqs(reg) ==> distinct_seqs(register_tags(reg, tags)),
    decreases tags.len(),
{
    if tags.len() == 0 {
    } else {
        let x0 = tags[0];
        let reg2 = if reg.contains(x0) {
            reg
        } else {
            reg.push(x0)
        };
        assert forall|y: Seq<char>| #[trigger]
            reg2.contains(y) <==> (reg.contains(y) || y == x0) by {
            if reg.contains(x0) {
            } else {
                if reg2.contains(y) {
                    let i = choose|i: int| 0 <= i < reg2.len() && reg2[i] == y;
                    if i < reg.len() {
                        assert(reg[i] == y);
                    }
                }
                if reg.contains(y) {
                    let i = choose|i: int| 0 <= i < reg.len() && reg[i] == y;
                    assert(reg2[i] == y);
                }
                if y == x0 {
                    assert(reg2[reg.len() as int] == y);
                }
            }
        }
        if distinct_seqs(reg) && !reg.contains(x0) {
            assert forall|i: int, j: int|
                #![trigger reg2[i], reg2[j]]
                0 <= i < j < reg2.len() implies reg2[i] != reg2[j] by {
                if j == reg.len() {
                    if reg2[i] == x0 {
                        assert(reg[i] == x0);
                        assert(reg.contains(x0));
                    }
                }
            }
        }
        lemma_register_tags(reg2, tags.drop_first());
        assert(register_tags(reg, tags) == register_tags(reg2, tags.drop_first()));
        assert forall|x: Seq<char>| #[trigger]
            register_tags(reg, tags).contains(x) <==> (reg.contains(x) || tags.contains(x)) by {
            lemma_contains_head_tail(tags, x);
            assert(register_tags(reg2, tags.drop_first()).contains(x) <==> (reg2.contains(x)
                || tags.drop_first().contains(x)));
            assert(reg2.contains(x) <==> (reg.contains(x) || x == x0));
        }
    }
}

/// The prompt as the store keeps it: its tags deduplicated to their first
/// occurrences (tag links are set-like).
pub open spec fn stored_prompt(p: PromptV) -> PromptV {
    PromptV { tags: dedup_first(p.tags, Seq::empty()), ..p }
}

/// The storage constraints a create must satisfy: name and content length
/// bounds and unique variable names.
pub open spec fn creatable(p: PromptV) -> bool {
    &&& 1 <= p.name.len() <= 100
    &&& 1 <= p.content.len() <= 100000
    &&& distinct_var_names(p.variables)
}

/// The storage constraints an update must satisfy; the name is not written
/// by updates, so only content and variables are constrained.
pub open spec fn updatable(p: PromptV) -> bool {
    &&& 1 <= p.content.len() <= 100000
    &&& distinct_var_names(p.variables)
}

/// The row that an update leaves in place of `cur`: identity, name and
/// creation time are kept; content, variables, tag links and the update time
/// are replaced.
pub open spec fn merged_prompt(cur: PromptV, p: PromptV) -> PromptV {
    PromptV {
        id: cur.id,
        name: cur.name,
        created_at: cur.created_at,
        content: p.content,
        variables: p.variables,
        tags: dedup_first(p.tags, Seq::empty()),
        updated_at: p.updated_at,
    }
}

/// The repository: the only path by which prompt entities are read and
/// mutated. It owns the prompt rows and the global tag registry; every
/// multi-table write happens in one call, so the state the caller sees moves
/// atomically from one well-formed store to the next. The search view is
/// derived directly from the rows at query time and is therefore consistent
/// with them by construction.
pub struct Database {
    pub(crate) prompts: Vec<Prompt>,
    pub(crate) tags: Vec<String>,
}

impl View for Database {
    type V = StoreV;

    closed spec fn view(&self) -> StoreV {
        StoreV { prompts: self.prompts.deep_view(), tags: self.tags.deep_view() }
    }
}

/// The store's view, spelled out for the crate's other modules.
pub(crate) proof fn lemma_database_view(db: &Database)
    ensures
        db@.prompts == db.prompts.deep_view(),
        db@.tags == db.tags.deep_view(),
{
}

/// The tags of `v` deduplicated to their first occurrences.
fn dedup_strings(v: &Vec<String>) -> (r: Vec<String>)
    ensures
        r.deep_view() == dedup_first(v.deep_view(), Seq::empty()),
{
    let ghost full = v.deep_view();
    let mut out: Vec<String> = Vec::new();
    proof {
        assert(out.deep_view() =~= Seq::<Seq<char>>::empty());
        assert(full.skip(0) =~= full);
        assert(Seq::<Seq<char>>::empty() + dedup_first(full, Seq::empty()) =~= dedup_first(
            full,
            Seq::empty(),
        ));
    }
    let mut k: usize = 0;
    while k < v.len()
        invariant
            full == v.deep_view(),
            k <= full.len(),
            dedup_first(full, Seq::empty()) == out.deep_view() + dedup_first(
                full.skip(k as int),
                out.deep_view(),
            ),
        decreases full.len() - k,
    {
        let ghost out0 = out.deep_view();
        let ghost rest = full.skip(k as int + 1);
        proof {
            assert(full.skip(k as int)[0] == full[k as int]);
            assert(full.skip(k as int).drop_first() =~= rest);
        }
        if !contains_name(&out, &v[k]) {
            let tag = v[k].clone();
            out.push(tag);
            proof {
                assert(out.deep_view() =~= out0.push(full[k as int]));
                assert(dedup_first(full.skip(k as int), out0) == seq![full[k as int]]
                    + dedup_first(rest, out0.push(full[k as int])));
                assert(out0 + (seq![full[k as int]] + dedup_first(rest, out.deep_view()))
                    =~= out.deep_view() + dedup_first(rest, out.deep_view()));
            }
        } else {
            proof {
                assert(dedup_first(full.skip(k as int), out0) == dedup_first(rest, out0));
            }
        }
        k += 1;
    }
    proof {
        assert(full.skip(full.len() as int) =~= Seq::<Seq<char>>::empty());
        assert(out.deep_view() + Seq::<Seq<char>>::empty() =~= out.deep_view());
    }
    out
}

/// Whether the variable names of `vars` are pairwise distinct.
fn vars_distinct(vars: &Vec<Variable>) -> (b: bool)
    ensures
        b == distinct_var_names(vars.deep_view()),
{
    let ghost vs = vars.deep_view();
    let n = vars.len();
    let mut i: usize = 1;
    while i < n
        invariant
            vs == vars.deep_view(),
            n == vs.len(),
            n > 0 ==> 1 <= i,
            forall|a: int, b: int|
                #![trigger vs[a], vs[b]]
                0 <= a < b < i && b < n ==> vs[a].name != vs[b].name,
        decreases n - i,
    {
        let mut j: usize = 0;
        while j < i
            invariant
                vs == vars.deep_view(),
                n == vs.len(),
                i < n,
                j <= i,
                forall|a: int| 0 <= a < j ==> (#[trigger] vs[a]).name != vs[i as int].name,
            decreases i - j,
        {
            if vars[j].name == vars[i].name {
                proof {
                    assert(vs[j as int].name == vs[i as int].name);
                }
                return false;
            }
            j += 1;
        }
        i += 1;
    }
    true
}

impl Database {
    /// An empty store: no prompts, no registered tags.
    pub fn new() -> (r: Database)
        ensures
            r.wf(),
            r@.prompts.len() == 0,
            r@.tags.len() == 0,
    {
        Database { prompts: Vec::new(), tags: Vec::new() }
    }

    /// The store invariant.
    pub open spec fn wf(&self) -> bool {
        wf_store(self@)
    }

    /// The index of the prompt named like `name`, if any.
    fn find_index_by_name(&self, name: &String) -> (r: Option<usize>)
        ensures
            r is Some <==> name_taken(self@.prompts, name@),
            r matches Some(k) ==> {
                &&& k < self@.prompts.len()
                &&& self@.prompts[k as int].name == name@
                &&& k == find_prompt(self@.prompts, name@)
            },
    {
        let ghost ps = self@.prompts;
        proof {
            lemma_find_prompt(ps, name@);
        }
        let n = self.prompts.len();
        let mut i: usize = 0;
        while i < n
            invariant
                ps == self@.prompts,
                n == ps.len(),
                i <= n,
                find_from(ps, name@, 0) == find_from(ps, name@, i as int),
            decreases n - i,
        {
            if self.prompts[i].name == *name {
                proof {
                    assert(find_from(ps, name@, i as int) == i);
                    assert(ps[i as int].name == name@);
                }
                return Some(i);
            }
            i += 1;
        }
        proof {
            assert(find_from(ps, name@, n as int) == -1);
        }
        None
    }

    /// Whether some prompt has the id of `id`.
    fn id_exists(&self, id: &String) -> (b: bool)
        ensures
            b == id_taken(self@.prompts, id@),
    {
        let ghost ps = self@.prompts;
        let n = self.prompts.len();
        let mut i: usize = 0;
        while i < n
            invariant
                ps == self@.prompts,
                n == ps.len(),
                i <= n,
                forall|j: int| 0 <= j < i ==> (#[trigger] ps[j]).id != id@,
            decreases n - i,
        {
            if self.prompts[i].id == *id {
                proof {
                    assert(ps[i as int].id == id@);
                }
                return true;
            }
            i += 1;
        }
        false
    }

    /// Whether a prompt named `name` is stored. Never fails.
    pub fn prompt_exists(&self, name: &str) -> (r: Result<bool, PromptedsError>)
        ensures
            r matches Ok(b) && b == name_taken(self@.prompts, name@),
    {
        let key = String::from_str(name);
        match self.find_index_by_name(&key) {
            Some(_) => Ok(true),
            None => Ok(false),
        }
    }

    /// The full prompt named `name`, with its variables and tags.
    pub fn get_prompt(&self, name: &str) -> (r: Result<Prompt, PromptedsError>)
        ensures
            r is Ok <==> name_taken(self@.prompts, name@),
            r matches Ok(p) ==> p@ == self@.prompts[find_prompt(self@.prompts, name@)],
            r is Err ==> (r matches Err(PromptedsError::PromptNotFound { name: n }) && n@
                == name@),
    {
        let key = String::from_str(name);
        match self.find_index_by_name(&key) {
            Some(k) => Ok(self.prompts[k].duplicate()),
            None => Err(PromptedsError::PromptNotFound { name: key }),
        }
    }

    /// Stores a new prompt with its variables and tag links, registering any
    /// new tags, all as one unit of work: on any failure the store is left
    /// exactly as it was. Fails with `PromptAlreadyExists` on a name
    /// collision and with a storage error on a violated schema constraint.
    pub fn create_prompt(&mut self, prompt: &Prompt) -> (r: Result<(), PromptedsError>)
        requires
            old(self).wf(),
        ensures
            final(self).wf(),
            r is Ok <==> {
                &&& !name_taken(old(self)@.prompts, prompt@.name)
                &&& !id_taken(old(self)@.prompts, prompt@.id)
                &&& creatable(prompt@)
            },
            r is Ok ==> final(self)@.prompts == old(self)@.prompts.push(stored_prompt(prompt@))
                && final(self)@.tags == register_tags(old(self)@.tags, prompt@.tags),
            r is Err ==> final(self)@ == old(self)@,
            name_taken(old(self)@.prompts, prompt@.name) ==> (r matches Err(
                PromptedsError::PromptAlreadyExists { name: n },
            ) && n@ == prompt@.name),
            !name_taken(old(self)@.prompts, prompt@.name) && r is Err ==> r matches Err(
                PromptedsError::Storage { .. },
            ),
    {
        let ghost s0 = old(self)@;
        let name_key = prompt.name.clone();
        if let Some(_) = self.find_index_by_name(&name_key) {
            return Err(PromptedsError::PromptAlreadyExists { name: name_key });
        }
        if self.id_exists(&prompt.id) {
            return Err(PromptedsError::Storage {
                details: String::from_str("a prompt with this id already exists"),
            });
        }
        let name_len = prompt.name.unicode_len();
        if name_len == 0 || name_len > 100 {
            return Err(PromptedsError::Storage {
                details: String::from_str("prompt name must be 1 to 100 characters"),
            });
        }
        let content_len = prompt.content.unicode_len();
        if content_len == 0 || content_len > 100000 {
            return Err(PromptedsError::Storage {
                details: String::from_str("prompt content must be 1 to 100000 characters"),
            });
        }
        if !vars_distinct(&prompt.variables) {
            return Err(PromptedsError::Storage {
                details: String::from_str("variable names must be unique per prompt"),
            });
        }
        let dup = prompt.duplicate();
        let tags = dedup_strings(&dup.tags);
        let stored = Prompt { tags, ..dup };
        proof {
            assert(stored@ == stored_prompt(prompt@));
        }
        self.register_tags_exec(&prompt.tags);
        self.prompts.push(stored);
        proof {
            let s1 = self@;
            let sp = stored_prompt(prompt@);
            assert(s1.prompts =~= s0.prompts.push(sp));
            lemma_register_tags(s0.tags, prompt@.tags);
            lemma_dedup_first_distinct(prompt@.tags, Seq::empty());
            lemma_dedup_first_subset(prompt@.tags, Seq::empty());
            assert forall|i: int, j: int|
                #![trigger s1.prompts[i], s1.prompts[j]]
                0 <= i < j < s1.prompts.len() implies s1.prompts[i].name != s1.prompts[j].name
                && s1.prompts[i].id != s1.prompts[j].id by {
                if j == s0.prompts.len() {
                    if s1.prompts[i].name == sp.name {
                        assert(s0.prompts[i].name == prompt@.name);
                        assert(name_taken(s0.prompts, prompt@.name));
                    }
                    if s1.prompts[i].id == sp.id {
                        assert(s0.prompts[i].id == prompt@.id);
                        assert(id_taken(s0.prompts, prompt@.id));
                    }
                }
            }
            assert(wf_prompt(sp));
            assert forall|i: int, k: int|
                #![trigger s1.prompts[i].tags[k]]
                0 <= i < s1.prompts.len() && 0 <= k < s1.prompts[i].tags.len() implies s1
                .tags.contains(s1.prompts[i].tags[k]) by {
                if i < s0.prompts.len() {
                    assert(s0.tags.contains(s0.prompts[i].tags[k]));
                } else {
                    assert(sp.tags.contains(sp.tags[k]));
                    assert(prompt@.tags.contains(sp.tags[k]));
                }
            }
        }
        Ok(())
    }

    /// Adds each tag of `tags` to the registry unless it is already there.
    fn register_tags_exec(&mut self, tags: &Vec<String>)
        ensures
            final(self)@.prompts == old(self)@.prompts,
            final(self)@.tags == register_tags(old(self)@.tags, tags.deep_view()),
    {
        let ghost reg0 = old(self)@.tags;
        let ghost ts = tags.deep_view();
        proof {
            assert(ts.skip(0) =~= ts);
        }
        let mut k: usize = 0;
        while k < tags.len()
            invariant
                ts == tags.deep_view(),
                k <= ts.len(),
                self@.prompts == old(self)@.prompts,
                register_tags(reg0, ts) == register_tags(self@.tags, ts.skip(k as int)),
            decreases ts.len() - k,
        {
            let ghost regk = self@.tags;
            proof {
                assert(ts.skip(k as int)[0] == ts[k as int]);
                assert(ts.skip(k as int).drop_first() =~= ts.skip(k as int + 1));
            }
            if !contains_name(&self.tags, &tags[k]) {
                let tag = tags[k].clone();
                self.tags.push(tag);
                proof {
                    assert(self@.tags =~= regk.push(ts[k as int]));
                }
            }
            k += 1;
        }
        proof {
            assert(ts.skip(ts.len() as int) =~= Seq::<Seq<char>>::empty());
        }
    }

    /// Removes the prompt named `name`; its variables and tag links go with
    /// it, but the global tag registry is left untouched. Fails with
    /// `PromptNotFound` when no prompt has that name.
    pub fn delete_prompt(&mut self, name: &str) -> (r: Result<(), PromptedsError>)
        requires
            old(self).wf(),
        ensures
            final(self).wf(),
            r is Ok <==> name_taken(old(self)@.prompts, name@),
            r is Ok ==> final(self)@.prompts == old(self)@.prompts.remove(
                find_prompt(old(self)@.prompts, name@),
            ) && final(self)@.tags == old(self)@.tags,
            r is Err ==> final(self)@ == old(self)@ && (r matches Err(
                PromptedsError::PromptNotFound { name: n },
            ) && n@ == name@),
    {
        let ghost s0 = old(self)@;
        let key = String::from_str(name);
        match self.find_index_by_name(&key) {
            Some(k) => {
                self.prompts.remove(k);
                proof {
                    let s1 = self@;
                    assert(s1.prompts =~= s0.prompts.remove(k as int));
                    s0.prompts.remove_ensures(k as int);
                    let old_of = |x: int| if x < k { x } else { x + 1 };
                    assert forall|i: int, j: int|
                        #![trigger s1.prompts[i], s1.prompts[j]]
                        0 <= i < j < s1.prompts.len() implies s1.prompts[i].name
                        != s1.prompts[j].name && s1.prompts[i].id != s1.prompts[j].id by {
                        let i0 = old_of(i);
                        let j0 = old_of(j);
                        assert(s1.prompts[i] == s0.prompts[i0]);
                        assert(s1.prompts[j] == s0.prompts[j0]);
                    }
                    assert forall|i: int| 0 <= i < s1.prompts.len() implies wf_prompt(
                        #[trigger] s1.prompts[i],
                    ) by {
                        assert(s1.prompts[i] == s0.prompts[old_of(i)]);
                    }
                    assert forall|i: int, t: int|
                        #![trigger s1.prompts[i].tags[t]]
                        0 <= i < s1.prompts.len() && 0 <= t < s1.prompts[i].tags.len() implies s1
                        .tags.contains(s1.prompts[i].tags[t]) by {
                        assert(s1.prompts[i] == s0.prompts[old_of(i)]);
                        assert(s0.tags.contains(s0.prompts[old_of(i)].tags[t]));
                    }
                }
                Ok(())
            },
            None => Err(PromptedsError::PromptNotFound { name: key }),
        }
    }

    /// The stored schema version.
    pub fn get_schema_version(&self) -> (r: Result<i32, PromptedsError>)
        ensures
            r matches Ok(v) && v == SCHEMA_VERSION,
    {
        Ok(SCHEMA_VERSION)
    }

    /// Whether the store's layout is older than the compiled-in version.
    pub fn needs_migration(&self) -> (r: Result<bool, PromptedsError>)
        ensures
            r matches Ok(b) && b == false,
    {
        Ok(false)
    }

    /// The global tag registry, in registration order. Tags stay registered
    /// even when no prompt links to them any more.
    pub fn list_tags(&self) -> (r: Result<Vec<String>, PromptedsError>)
        ensures
            r matches Ok(v) && v.deep_view() == self@.tags,
    {
        let mut out: Vec<String> = Vec::new();
        let mut i: usize = 0;
        while i < self.tags.len()
            invariant
                out@.len() == i,
                i <= self.tags@.len(),
                forall|k: int| 0 <= k < i ==> out@[k]@ == self.tags@[k]@,
            decreases self.tags@.len() - i,
        {
            let tag = self.tags[i].clone();
            out.push(tag);
            i += 1;
        }
        proof {
            assert(out.deep_view() =~= self.tags.deep_view());
        }
        Ok(out)
    }

    /// The index of the prompt with the id of `id`, if any.
    fn find_index_by_id(&self, id: &String) -> (r: Option<usize>)
        ensures
            r is Some <==> id_taken(self@.prompts, id@),
            r matches Some(k) ==> {
                &&& k < self@.prompts.len()
                &&& self@.prompts[k as int].id == id@
                &&& k == find_by_id(self@.prompts, id@)
            },
    {
        let ghost ps = self@.prompts;
        proof {
            lemma_find_by_id(ps, id@);
        }
        let n = self.prompts.len();
        let mut i: usize = 0;
        while i < n
            invariant
                ps == self@.prompts,
                n == ps.len(),
                i <= n,
                find_id_from(ps, id@, 0) == find_id_from(ps, id@, i as int),
            decreases n - i,
        {
            if self.prompts[i].id == *id {
                proof {
                    assert(find_id_from(ps, id@, i as int) == i);
                    assert(ps[i as int].id == id@);
                }
                return Some(i);
            }
            i += 1;
        }
        proof {
            assert(find_id_from(ps, id@, n as int) == -1);
        }
        None
    }

    /// Replaces the content, update time, variable set and tag-link set of
    /// the stored prompt with this prompt's id, registering any new tags, as
    /// one unit of work; the row's name and creation time are kept. Fails
    /// with `PromptNotFound` when no row has the id, with a storage error on
    /// a violated constraint; on any failure the store is left unchanged.
    pub fn update_prompt(&mut self, prompt: &Prompt) -> (r: Result<(), PromptedsError>)
        requires
            old(self).wf(),
        ensures
            final(self).wf(),
            r is Ok <==> (id_taken(old(self)@.prompts, prompt@.id) && updatable(prompt@)),
            r is Ok ==> final(self)@.prompts == old(self)@.prompts.update(
                find_by_id(old(self)@.prompts, prompt@.id),
                merged_prompt(
                    old(self)@.prompts[find_by_id(old(self)@.prompts, prompt@.id)],
                    prompt@,
                ),
            ) && final(self)@.tags == register_tags(old(self)@.tags, prompt@.tags),
            r is Err ==> final(self)@ == old(self)@,
            !id_taken(old(self)@.prompts, prompt@.id) ==> (r matches Err(
                PromptedsError::PromptNotFound { name: n },
            ) && n@ == prompt@.name),
            id_taken(old(self)@.prompts, prompt@.id) && r is Err ==> r matches Err(
                PromptedsError::Storage { .. },
            ),
    {
        let ghost s0 = old(self)@;
        let k = match self.find_index_by_id(&prompt.id) {
            Some(k) => k,
            None => {
                return Err(PromptedsError::PromptNotFound { name: prompt.name.clone() });
            },
        };
        let content_len = prompt.content.unicode_len();
        if content_len == 0 || content_len > 100000 {
            return Err(PromptedsError::Storage {
                details: String::from_str("prompt content must be 1 to 100000 characters"),
            });
        }
        if !vars_distinct(&prompt.variables) {
            return Err(PromptedsError::Storage {
                details: String::from_str("variable names must be unique per prompt"),
            });
        }
        let dup = prompt.duplicate();
        let tags = dedup_strings(&dup.tags);
        let cur_id = self.prompts[k].id.clone();
        let cur_name = self.prompts[k].name.clone();
        let cur_created = self.prompts[k].created_at;
        let merged = Prompt {
            id: cur_id,
            name: cur_name,
            content: dup.content,
            variables: dup.variables,
            tags,
            created_at: cur_created,
            updated_at: dup.updated_at,
        };
        let ghost mv = merged_prompt(s0.prompts[k as int], prompt@);
        proof {
            assert(merged@ == mv);
        }
        self.register_tags_exec(&prompt.tags);
        let ghost shallow0 = self.prompts@;
        self.prompts.remove(k);
        self.prompts.insert(k, merged);
        proof {
            let s1 = self@;
            assert(shallow0.remove(k as int).insert(k as int, merged) =~= shallow0.update(
                k as int,
                merged,
            ));
            assert(s1.prompts =~= s0.prompts.update(k as int, mv));
            lemma_register_tags(s0.tags, prompt@.tags);
            lemma_dedup_first_distinct(prompt@.tags, Seq::empty());
            lemma_dedup_first_subset(prompt@.tags, Seq::empty());
            assert forall|i: int, j: int|
                #![trigger s1.prompts[i], s1.prompts[j]]
                0 <= i < j < s1.prompts.len() implies s1.prompts[i].name != s1.prompts[j].name
                && s1.prompts[i].id != s1.prompts[j].id by {
                assert(s0.prompts[i].name != s0.prompts[j].name);
                assert(s1.prompts[i].name == s0.prompts[i].name);
                assert(s1.prompts[j].name == s0.prompts[j].name);
                assert(s1.prompts[i].id == s0.prompts[i].id);
                assert(s1.prompts[j].id == s0.prompts[j].id);
            }
            assert(wf_prompt(mv));
            assert forall|i: int| 0 <= i < s1.prompts.len() implies wf_prompt(
                #[trigger] s1.prompts[i],
            ) by {
                if i != k {
                    assert(s1.prompts[i] == s0.prompts[i]);
                }
            }
            assert forall|i: int, t: int|
                #![trigger s1.prompts[i].tags[t]]
                0 <= i < s1.prompts.len() && 0 <= t < s1.prompts[i].tags.len() implies s1
                .tags.contains(s1.prompts[i].tags[t]) by {
                if i != k {
                    assert(s1.prompts[i] == s0.prompts[i]);
                    assert(s0.tags.contains(s0.prompts[i].tags[t]));
                } else {
                    assert(mv.tags.contains(mv.tags[t]));
                    assert(prompt@.tags.contains(mv.tags[t]));
                }
            }
        }
        Ok(())
    }

    /// Cheap summaries of the stored prompts — optionally only those linked
    /// to a given tag — ordered by update time, newest first, and cut to
    /// `limit` entries when one is given. Never fails.
    pub fn list_prompts(&self, tag_filter: Option<&str>, limit: Option<usize>) -> (r: Result<
        Vec<PromptSummary>,
        PromptedsError,
    >)
        ensures
            r matches Ok(v) && (exists|sorted: Seq<PromptSummaryV>|
                {
                    &&& (#[trigger] sorted.to_multiset()) == filter_summaries(
                        self@.prompts,
                        filter_view(tag_filter),
                    ).to_multiset()
                    &&& sorted_desc_summaries(sorted)
                    &&& v.deep_view() == (match limit {
                        Some(l) => if l <= sorted.len() {
                            sorted.take(l as int)
                        } else {
                            sorted
                        },
                        None => sorted,
                    })
                }),
    {
        let ghost ps = self@.prompts;
        let ghost fv = filter_view(tag_filter);
        let filter_key: Option<String> = match tag_filter {
            Some(t) => Some(String::from_str(t)),
            None => None,
        };
        let mut selected: Vec<PromptSummary> = Vec::new();
        proof {
            assert(selected.deep_view() =~= Seq::<PromptSummaryV>::empty());
            assert(ps.skip(0) =~= ps);
            assert(Seq::<PromptSummaryV>::empty() + filter_summaries(ps, fv)
                =~= filter_summaries(ps, fv));
        }
        let mut k: usize = 0;
        while k < self.prompts.len()
            invariant
                ps == self@.prompts,
                fv == (match filter_key {
                    Some(t) => Some(t@),
                    None => None,
                }),
                k <= ps.len(),
                filter_summaries(ps, fv) == selected.deep_view() + filter_summaries(
                    ps.skip(k as int),
                    fv,
                ),
            decreases ps.len() - k,
        {
            let ghost sel0 = selected.deep_view();
            proof {
                assert(ps.skip(k as int)[0] == ps[k as int]);
                assert(ps.skip(k as int).drop_first() =~= ps.skip(k as int + 1));
            }
            let keep = match &filter_key {
                Some(t) => contains_name(&self.prompts[k].tags, t),
                None => true,
            };
            if keep {
                let p = &self.prompts[k];
                let summary = PromptSummary {
                    name: p.name.clone(),
                    variable_count: p.variables.len(),
                    tag_count: p.tags.len(),
                    created_at: p.created_at,
                    updated_at: p.updated_at,
                };
                selected.push(summary);
                proof {
                    assert(selected.deep_view() =~= sel0.push(crate::models::spec_summary(
                        ps[k as int],
                    )));
                    assert(filter_summaries(ps.skip(k as int), fv) == seq![
                        crate::models::spec_summary(ps[k as int]),
                    ] + filter_summaries(ps.skip(k as int + 1), fv));
                    assert(sel0 + (seq![crate::models::spec_summary(ps[k as int])]
                        + filter_summaries(ps.skip(k as int + 1), fv)) =~= selected.deep_view()
                        + filter_summaries(ps.skip(k as int + 1), fv));
                }
            } else {
                proof {
                    assert(filter_summaries(ps.skip(k as int), fv) == filter_summaries(
                        ps.skip(k as int + 1),
                        fv,
                    ));
                }
            }
            k += 1;
        }
        proof {
            assert(ps.skip(ps.len() as int) =~= Seq::<PromptV>::empty());
            assert(selected.deep_view() + Seq::<PromptSummaryV>::empty()
                =~= selected.deep_view());
        }
        let mut out = sort_summaries_by_updated(selected);
        let ghost sorted_dv = out.deep_view();
        if let Some(l) = limit {
            if l < out.len() {
                out.truncate(l);
                proof {
                    assert(out.deep_view() =~= sorted_dv.take(l as int));
                }
            }
        }
        Ok(out)
    }

    /// Every stored prompt, as a full entity, ordered by update time, newest
    /// first. Never fails.
    pub fn get_all_prompts(&self) -> (r: Result<Vec<Prompt>, PromptedsError>)
        ensures
            r matches Ok(v) && (exists|sorted: Seq<PromptV>|
                {
                    &&& (#[trigger] sorted.to_multiset()) == self@.prompts.to_multiset()
                    &&& sorted_desc_prompts(sorted)
                    &&& v.deep_view() == sorted
                }),
    {
        let ghost ps = self@.prompts;
        let mut all: Vec<Prompt> = Vec::new();
        let mut k: usize = 0;
        while k < self.prompts.len()
            invariant
                ps == self@.prompts,
                k <= ps.len(),
                all@.len() == k,
                forall|i: int| 0 <= i < k ==> all.deep_view()[i] == ps[i],
            decreases ps.len() - k,
        {
            let p = self.prompts[k].duplicate();
            all.push(p);
            k += 1;
        }
        proof {
            assert(all.deep_view() =~= ps);
        }
        let out = sort_prompts_by_updated(all);
        proof {
            assert(out.deep_view().to_multiset() == ps.to_multiset());
        }
        Ok(out)
    }
}

/// The first index at or after `i` of a prompt with id `id`, or -1.
pub open spec fn find_id_from(ps: Seq<PromptV>, id: Seq<char>, i: int) -> int
    decreases ps.len() - i when 0 <= i <= ps.len()
{
    if i >= ps.len() {
        -1
    } else if ps[i].id == id {
        i
    } else {
        find_id_from(ps, id, i + 1)
    }
}

/// The first index of a prompt with id `id`, or -1.
pub open spec fn find_by_id(ps: Seq<PromptV>, id: Seq<char>) -> int {
    find_id_from(ps, id, 0)
}

pub proof fn lemma_find_id_from(ps: Seq<PromptV>, id: Seq<char>, i: int)
    requires
        0 <= i <= ps.len(),
    ensures
        find_id_from(ps, id, i) == -1 ==> forall|j: int|
            i <= j < ps.len() ==> (#[trigger] ps[j]).id != id,
        find_id_from(ps, id, i) != -1 ==> {
            &&& i <= find_id_from(ps, id, i) < ps.len()
            &&& ps[find_id_from(ps, id, i)].id == id
        },
    decreases ps.len() - i,
{
    if i < ps.len() && ps[i].id != id {
        lemma_find_id_from(ps, id, i + 1);
    }
}

pub proof fn lemma_find_by_id(ps: Seq<PromptV>, id: Seq<char>)
    ensures
        id_taken(ps, id) <==> find_by_id(ps, id) >= 0,
        find_by_id(ps, id) >= 0 ==> {
            &&& find_by_id(ps, id) < ps.len()
            &&& ps[find_by_id(ps, id)].id == id
        },
{
    lemma_find_id_from(ps, id, 0);
}

/// The tag filter as a mathematical value.
pub open spec fn filter_view(tag_filter: Option<&str>) -> Option<Seq<char>> {
    match tag_filter {
        Some(t) => Some(t@),
        None => None,
    }
}

/// Whether a prompt passes the tag filter.
pub open spec fn tag_matches(p: PromptV, filt: Option<Seq<char>>) -> bool {
    match filt {
        None => true,
        Some(t) => p.tags.contains(t),
    }
}

/// The summaries of the prompts that pass the tag filter, in store order.
pub open spec fn filter_summaries(ps: Seq<PromptV>, filt: Option<Seq<char>>) -> Seq<
    crate::models::PromptSummaryV,
>
    decreases ps.len(),
{
    if ps.len() == 0 {
        Seq::empty()
    } else {
        let rest = filter_summaries(ps.drop_first(), filt);
        if tag_matches(ps[0], filt) {
            seq![crate::models::spec_summary(ps[0])] + rest
        } else {
            rest
        }
    }
}

/// Ordered by update time, newest first.
pub open spec fn sorted_desc_summaries(s: Seq<crate::models::PromptSummaryV>) -> bool {
    forall|i: int, j: int|
        #![trigger s[i], s[j]]
        0 <= i < j < s.len() ==> s[i].updated_at >= s[j].updated_at
}

/// Ordered by update time, newest first.
pub open spec fn sorted_desc_prompts(s: Seq<PromptV>) -> bool {
    forall|i: int, j: int|
        #![trigger s[i], s[j]]
        0 <= i < j < s.len() ==> s[i].updated_at >= s[j].updated_at
}

/// Inserting an element anywhere adds exactly it to the sequence's multiset.
pub(crate) proof fn lemma_insert_multiset<A>(s: Seq<A>, pos: int, x: A)
    requires
        0 <= pos <= s.len(),
    ensures
        s.insert(pos, x).to_multiset() == s.to_multiset().insert(x),
{
    broadcast use vstd::seq_lib::group_to_multiset_ensures;
    broadcast use vstd::multiset::group_multiset_axioms;

    let t = s.insert(pos, x);
    s.insert_ensures(pos, x);
    t.remove_ensures(pos);
    assert(t.remove(pos) =~= s);
    assert(t[pos] == x);
    assert(t.contains(x));
    assert(t.remove(pos).to_multiset() =~= t.to_multiset().remove(x));
    assert(t.to_multiset().count(x) > 0);
    assert forall|y: A| #[trigger]
        t.to_multiset().count(y) == s.to_multiset().insert(x).count(y) by {
        if y == x {
            assert(s.to_multiset().count(x) == t.to_multiset().remove(x).count(x));
        } else {
            assert(s.to_multiset().count(y) == t.to_multiset().remove(x).count(y));
        }
    }
    assert(t.to_multiset() =~= s.to_multiset().insert(x));
}

/// Insertion sort of summaries by update time, newest first.
#[verifier::rlimit(50)]
fn sort_summaries_by_updated(v: Vec<PromptSummary>) -> (r: Vec<PromptSummary>)
    ensures
        r.deep_view().to_multiset() == v.deep_view().to_multiset(),
        sorted_desc_summaries(r.deep_view()),
{
    broadcast use vstd::seq_lib::group_to_multiset_ensures;
    broadcast use vstd::multiset::group_multiset_axioms;

    let ghost orig = v.deep_view();
    let mut rest = v;
    let mut out: Vec<PromptSummary> = Vec::new();
    proof {
        assert(out.deep_view() =~= Seq::<crate::models::PromptSummaryV>::empty());
        assert(out.deep_view().to_multiset().add(rest.deep_view().to_multiset())
            =~= orig.to_multiset());
    }
    while rest.len() > 0
        invariant
            out.deep_view().to_multiset().add(rest.deep_view().to_multiset())
                == orig.to_multiset(),
            sorted_desc_summaries(out.deep_view()),
        decreases rest.len(),
    {
        broadcast use vstd::seq_lib::group_to_multiset_ensures;
        broadcast use vstd::multiset::group_multiset_axioms;

        let ghost rest0 = rest.deep_view();
        let ghost out0 = out.deep_view();
        let e = match rest.pop() {
            Some(e) => e,
            None => unreached(),
        };
        proof {
            assert(rest0 =~= rest.deep_view().push(e@));
            assert(rest0.to_multiset() == rest.deep_view().to_multiset().insert(e@));
        }
        let mut pos: usize = 0;
        while pos < out.len() && out[pos].updated_at >= e.updated_at
            invariant
                out.deep_view() == out0,
                pos <= out0.len(),
                forall|a: int| 0 <= a < pos ==> (#[trigger] out0[a]).updated_at >= e@.updated_at,
            decreases out0.len() - pos,
        {
            pos += 1;
        }
        proof {
            assert(pos == out0.len() || out0[pos as int].updated_at < e@.updated_at);
        }
        out.insert(pos, e);
        proof {
            assert(out.deep_view() =~= out0.insert(pos as int, e@));
            lemma_insert_multiset(out0, pos as int, e@);
            out0.insert_ensures(pos as int, e@);
            let d = out.deep_view();
            assert forall|i: int, j: int|
                #![trigger d[i], d[j]]
                0 <= i < j < d.len() implies d[i].updated_at >= d[j].updated_at by {
                if j < pos {
                } else if j == pos {
                    assert(d[i] == out0[i]);
                } else {
                    assert(d[j] == out0[j - 1]);
                    if i < pos {
                        assert(d[i] == out0[i]);
                        assert(out0[j - 1].updated_at <= out0[i].updated_at);
                    } else if i == pos {
                        assert(out0[pos as int].updated_at < e@.updated_at);
                        assert(out0[j - 1].updated_at <= out0[pos as int].updated_at);
                    } else {
                        assert(d[i] == out0[i - 1]);
                    }
                }
            }
            assert(out.deep_view().to_multiset().add(rest.deep_view().to_multiset())
                =~= orig.to_multiset());
        }
    }
    proof {
        assert(rest.deep_view() =~= Seq::<crate::models::PromptSummaryV>::empty());
        assert(out.deep_view().to_multiset().add(
            Seq::<crate::models::PromptSummaryV>::empty().to_multiset(),
        ) =~= out.deep_view().to_multiset());
    }
    out
}

/// Insertion sort of prompts by update time, newest first.
#[verifier::rlimit(50)]
fn sort_prompts_by_updated(v: Vec<Prompt>) -> (r: Vec<Prompt>)
    ensures
        r.deep_view().to_multiset() == v.deep_view().to_multiset(),
        sorted_desc_prompts(r.deep_view()),
{
    broadcast use vstd::seq_lib::group_to_multiset_ensures;
    broadcast use vstd::multiset::group_multiset_axioms;

    let ghost orig = v.deep_view();
    let mut rest = v;
    let mut out: Vec<Prompt> = Vec::new();
    proof {
        assert(out.deep_view() =~= Seq::<PromptV>::empty());
        assert(out.deep_view().to_multiset().add(rest.deep_view().to_multiset())
            =~= orig.to_multiset());
    }
    while rest.len() > 0
        invariant
            out.deep_view().to_multiset().add(rest.deep_view().to_multiset())
                == orig.to_multiset(),
            sorted_desc_prompts(out.deep_view()),
        decreases rest.len(),
    {
        broadcast use vstd::seq_lib::group_to_multiset_ensures;
        broadcast use vstd::multiset::group_multiset_axioms;

        let ghost rest0 = rest.deep_view();
        let ghost out0 = out.deep_view();
        let e = match rest.pop() {
            Some(e) => e,
            None => unreached(),
        };
        proof {
            assert(rest0 =~= rest.deep_view().push(e@));
            assert(rest0.to_multiset() == rest.deep_view().to_multiset().insert(e@));
        }
        let mut pos: usize = 0;
        while pos < out.len() && out[pos].updated_at >= e.updated_at
            invariant
                out.deep_view() == out0,
                pos <= out0.len(),
                forall|a: int| 0 <= a < pos ==> (#[trigger] out0[a]).updated_at >= e@.updated_at,
            decreases out0.len() - pos,
        {
            pos += 1;
        }
        proof {
            assert(pos == out0.len() || out0[pos as int].updated_at < e@.updated_at);
        }
        out.insert(pos, e);
        proof {
            assert(out.deep_view() =~= out0.insert(pos as int, e@));
            lemma_insert_multiset(out0, pos as int, e@);
            out0.insert_ensures(pos as int, e@);
            let d = out.deep_view();
            assert forall|i: int, j: int|
                #![trigger d[i], d[j]]
                0 <= i < j < d.len() implies d[i].updated_at >= d[j].updated_at by {
                if j < pos {
                } else if j == pos {
                    assert(d[i] == out0[i]);
                } else {
                    assert(d[j] == out0[j - 1]);
                    if i < pos {
                        assert(d[i] == out0[i]);
                        assert(out0[j - 1].updated_at <= out0[i].updated_at);
                    } else if i == pos {
                        assert(out0[pos as int].updated_at < e@.updated_at);
                        assert(out0[j - 1].updated_at <= out0[pos as int].updated_at);
                    } else {
                        assert(d[i] == out0[i - 1]);
                    }
                }
            }
            assert(out.deep_view().to_multiset().add(rest.deep_view().to_multiset())
                =~= orig.to_multiset());
        }
    }
    proof {
        assert(rest.deep_view() =~= Seq::<PromptV>::empty());
        assert(out.deep_view().to_multiset().add(Seq::<PromptV>::empty().to_multiset())
            =~= out.deep_view().to_multiset());
    }
    out
}

/// The field a caller may sort a listing by; sorting by name is ascending,
/// sorting by a timestamp is newest first.
#[derive(Clone, Copy, Debug, PartialEq, Eq)]
pub enum SortField {
    Name,
    Created,
    Updated,
}

/// Lexicographic order on strings by character code, the order that
/// byte-wise comparison of UTF-8 text gives.
pub open spec fn lex_le(a: Seq<char>, b: Seq<char>) -> bool
    decreases a.len(),
{
    if a.len() == 0 {
        true
    } else if b.len() == 0 {
        false
    } else if (a[0] as u32) < (b[0] as u32) {
        true
    } else if (a[0] as u32) > (b[0] as u32) {
        false
    } else {
        lex_le(a.drop_first(), b.drop_first())
    }
}

pub proof fn lemma_lex_total(a: Seq<char>, b: Seq<char>)
    ensures
        lex_le(a, b) || lex_le(b, a),
    decreases a.len(),
{
    if a.len() > 0 && b.len() > 0 && a[0] as u32 == b[0] as u32 {
        lemma_lex_total(a.drop_first(), b.drop_first());
    }
}

pub proof fn lemma_lex_trans(a: Seq<char>, b: Seq<char>, c: Seq<char>)
    requires
        lex_le(a, b),
        lex_le(b, c),
    ensures
        lex_le(a, c),
    decreases a.len(),
{
    if a.len() > 0 && b.len() > 0 && c.len() > 0 && a[0] as u32 == b[0] as u32 && b[0] as u32
        == c[0] as u32 {
        lemma_lex_trans(a.drop_first(), b.drop_first(), c.drop_first());
    }
}

/// The listing order a sort field denotes.
pub open spec fn summary_le(field: SortField, a: PromptSummaryV, b: PromptSummaryV) -> bool {
    match field {
        SortField::Name => lex_le(a.name, b.name),
        SortField::Created => b.created_at <= a.created_at,
        SortField::Updated => b.updated_at <= a.updated_at,
    }
}

pub proof fn lemma_summary_le_total(field: SortField, a: PromptSummaryV, b: PromptSummaryV)
    ensures
        summary_le(field, a, b) || summary_le(field, b, a),
{
    lemma_lex_total(a.name, b.name);
}

pub proof fn lemma_summary_le_trans(
    field: SortField,
    a: PromptSummaryV,
    b: PromptSummaryV,
    c: PromptSummaryV,
)
    requires
        summary_le(field, a, b),
        summary_le(field, b, c),
    ensures
        summary_le(field, a, c),
{
    if field is Name {
        lemma_lex_trans(a.name, b.name, c.name);
    }
}

/// Lexicographic comparison of two strings.
fn str_le(a: &String, b: &String) -> (r: bool)
    ensures
        r == lex_le(a@, b@),
{
    let ac = crate::template::to_chars(a.as_str());
    let bc = crate::template::to_chars(b.as_str());
    let ghost av = a@;
    let ghost bv = b@;
    proof {
        assert(av.skip(0) =~= av);
        assert(bv.skip(0) =~= bv);
    }
    let mut i: usize = 0;
    while i < ac.len() && i < bc.len()
        invariant
            av == a@,
            bv == b@,
            ac@ == av,
            bc@ == bv,
            i <= av.len(),
            i <= bv.len(),
            lex_le(av, bv) == lex_le(av.skip(i as int), bv.skip(i as int)),
        decreases av.len() - i,
    {
        proof {
            assert(av.skip(i as int)[0] == av[i as int]);
            assert(bv.skip(i as int)[0] == bv[i as int]);
            assert(av.skip(i as int).drop_first() =~= av.skip(i as int + 1));
            assert(bv.skip(i as int).drop_first() =~= bv.skip(i as int + 1));
        }
        let x = ac[i] as u32;
        let y = bc[i] as u32;
        if x < y {
            proof {
                assert(lex_le(av.skip(i as int), bv.skip(i as int)));
            }
            return true;
        }
        if x > y {
            proof {
                assert(!lex_le(av.skip(i as int), bv.skip(i as int)));
            }
            return false;
        }
        i += 1;
    }
    proof {
        if i >= av.len() {
            assert(av.skip(i as int) =~= Seq::<char>::empty());
        } else {
            assert(bv.skip(i as int) =~= Seq::<char>::empty());
            assert(av.skip(i as int).len() > 0);
        }
    }
    i >= ac.len()
}

/// Whether `a` comes no later than `b` under the sort field.
fn summary_le_exec(field: SortField, a: &PromptSummary, b: &PromptSummary) -> (r: bool)
    ensures
        r == summary_le(field, a@, b@),
{
    match field {
        SortField::Name => str_le(&a.name, &b.name),
        SortField::Created => b.created_at <= a.created_at,
        SortField::Updated => b.updated_at <= a.updated_at,
    }
}

/// Insertion sort of a listing by the caller's sort field: by name
/// ascending, or by a timestamp newest first. The repository's own listing
/// order is by update time; this reorders it client-side.
#[verifier::rlimit(50)]
pub fn sort_summaries(v: Vec<PromptSummary>, field: SortField) -> (r: Vec<PromptSummary>)
    ensures
        r.deep_view().to_multiset() == v.deep_view().to_multiset(),
        forall|i: int, j: int|
            #![trigger r.deep_view()[i], r.deep_view()[j]]
            0 <= i < j < r.deep_view().len() ==> summary_le(
                field,
                r.deep_view()[i],
                r.deep_view()[j],
            ),
{
    broadcast use vstd::seq_lib::group_to_multiset_ensures;
    broadcast use vstd::multiset::group_multiset_axioms;

    let ghost orig = v.deep_view();
    let mut rest = v;
    let mut out: Vec<PromptSummary> = Vec::new();
    proof {
        assert(out.deep_view() =~= Seq::<PromptSummaryV>::empty());
        assert(out.deep_view().to_multiset().add(rest.deep_view().to_multiset())
            =~= orig.to_multiset());
    }
    while rest.len() > 0
        invariant
            out.deep_view().to_multiset().add(rest.deep_view().to_multiset())
                == orig.to_multiset(),
            forall|i: int, j: int|
                #![trigger out.deep_view()[i], out.deep_view()[j]]
                0 <= i < j < out.deep_view().len() ==> summary_le(
                    field,
                    out.deep_view()[i],
                    out.deep_view()[j],
                ),
        decreases rest.len(),
    {
        broadcast use vstd::seq_lib::group_to_multiset_ensures;
        broadcast use vstd::multiset::group_multiset_axioms;

        let ghost rest0 = rest.deep_view();
        let ghost out0 = out.deep_view();
        let e = match rest.pop() {
            Some(e) => e,
            None => unreached(),
        };
        proof {
            assert(rest0 =~= rest.deep_view().push(e@));
            assert(rest0.to_multiset() == rest.deep_view().to_multiset().insert(e@));
        }
        let mut pos: usize = 0;
        while pos < out.len() && summary_le_exec(field, &out[pos], &e)
            invariant
                out.deep_view() == out0,
                pos <= out0.len(),
                forall|a: int|
                    0 <= a < pos ==> summary_le(field, #[trigger] out0[a], e@),
            decreases out0.len() - pos,
        {
            pos += 1;
        }
        proof {
            if pos < out0.len() {
                lemma_summary_le_total(field, out0[pos as int], e@);
                assert(summary_le(field, e@, out0[pos as int]));
            }
        }
        out.insert(pos, e);
        proof {
            assert(out.deep_view() =~= out0.insert(pos as int, e@));
            lemma_insert_multiset(out0, pos as int, e@);
            out0.insert_ensures(pos as int, e@);
            let d = out.deep_view();
            assert forall|i: int, j: int|
                #![trigger d[i], d[j]]
                0 <= i < j < d.len() implies summary_le(field, d[i], d[j]) by {
                if j < pos {
                } else if j == pos {
                    assert(d[i] == out0[i]);
                } else {
                    assert(d[j] == out0[j - 1]);
                    if i < pos {
                        assert(d[i] == out0[i]);
                        if pos < out0.len() && i < pos {
                        }
                        if i == j - 1 {
                        } else {
                            assert(summary_le(field, out0[i], out0[j - 1]));
                        }
                    } else if i == pos {
                        assert(summary_le(field, e@, out0[pos as int]));
                        if pos == j - 1 {
                        } else {
                            assert(summary_le(field, out0[pos as int], out0[j - 1]));
                            lemma_summary_le_trans(field, e@, out0[pos as int], out0[j - 1]);
                        }
                    } else {
                        assert(d[i] == out0[i - 1]);
                    }
                }
            }
            assert(out.deep_view().to_multiset().add(rest.deep_view().to_multiset())
                =~= orig.to_multiset());
        }
    }
    proof {
        assert(rest.deep_view() =~= Seq::<PromptSummaryV>::empty());
        assert(out.deep_view().to_multiset().add(
            Seq::<PromptSummaryV>::empty().to_multiset(),
        ) =~= out.deep_view().to_multiset());
    }
    out
}

/// Deduplication leaves a list alone when its entries are already distinct
/// and none of them was seen before.
pub(crate) proof fn lemma_dedup_first_all_new(names: Seq<Seq<char>>, seen: Seq<Seq<char>>)
    requires
        distinct_seqs(names),
        forall|k: int| 0 <= k < names.len() ==> !seen.contains(#[trigger] names[k]),
    ensures
        dedup_first(names, seen) == names,
    decreases names.len(),
{
    if names.len() == 0 {
        assert(dedup_first(names, seen) =~= names);
    } else {
        let x = names[0];
        let seen2 = seen.push(x);
        assert forall|k: int|
            0 <= k < names.drop_first().len() implies !seen2.contains(
            #[trigger] names.drop_first()[k],
        ) by {
            let y = names.drop_first()[k];
            assert(y == names[k + 1]);
            if seen2.contains(y) {
                let i = choose|i: int| 0 <= i < seen2.len() && seen2[i] == y;
                if i < seen.len() {
                    assert(seen[i] == y);
                    assert(seen.contains(names[k + 1]));
                } else {
                    assert(y == x);
                }
            }
        }
        assert forall|a: int, b: int|
            #![trigger names.drop_first()[a], names.drop_first()[b]]
            0 <= a < b < names.drop_first().len() implies names.drop_first()[a]
            != names.drop_first()[b] by {
            assert(names.drop_first()[a] == names[a + 1]);
            assert(names.drop_first()[b] == names[b + 1]);
        }
        lemma_dedup_first_all_new(names.drop_first(), seen2);
        assert(dedup_first(names, seen) == seq![x] + names.drop_first());
        assert(seq![x] + names.drop_first() =~= names);
    }
}

/// Law: creating a well-formed prompt under a free name and then looking
/// that name up returns exactly the prompt that was given (round trip).
pub proof fn lemma_create_then_get(s: StoreV, p: PromptV)
    requires
        wf_store(s),
        !name_taken(s.prompts, p.name),
        creatable(p),
        distinct_seqs(p.tags),
    ensures
        name_taken(s.prompts.push(stored_prompt(p)), p.name),
        s.prompts.push(stored_prompt(p))[find_prompt(s.prompts.push(stored_prompt(p)), p.name)]
            == p,
{
    assert forall|k: int| 0 <= k < p.tags.len() implies !Seq::<Seq<char>>::empty().contains(
        #[trigger] p.tags[k],
    ) by {
        if Seq::<Seq<char>>::empty().contains(p.tags[k]) {
            let i = choose|i: int|
                0 <= i < Seq::<Seq<char>>::empty().len() && Seq::<Seq<char>>::empty()[i]
                    == p.tags[k];
        }
    }
    lemma_dedup_first_all_new(p.tags, Seq::empty());
    let sp = stored_prompt(p);
    assert(sp == p);
    let ps2 = s.prompts.push(sp);
    assert(ps2[s.prompts.len() as int] == p);
    assert(name_taken(ps2, p.name));
    lemma_find_prompt(ps2, p.name);
    let f = find_prompt(ps2, p.name);
    if f < s.prompts.len() {
        assert(ps2[f] == s.prompts[f]);
        assert(name_taken(s.prompts, p.name));
    }
}

} // verus!
