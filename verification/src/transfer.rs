use vstd::prelude::*;

use vstd::arithmetic::div_mod::lemma_fundamental_div_mod;

use crate::error::PromptedsError;
use crate::models::{ExportData, PromptV};
use crate::store::{creatable, find_by_id, find_prompt, id_taken, lemma_database_view,
    lemma_find_by_id, lemma_find_prompt, merged_prompt, name_taken, register_tags,
    sorted_desc_prompts, stored_prompt, updatable, Database, StoreV};
use crate::sys;

verus! {

// ---------------------------------------------------------------------------
// Decimal rendering of rename counters
// ---------------------------------------------------------------------------

/// The decimal digit character for `d`.
pub open spec fn digit_char(d: int) -> char
    recommends
        0 <= d <= 9,
{
    if d == 0 {
        '0'
    } else if d == 1 {
        '1'
    } else if d == 2 {
        '2'
    } else if d == 3 {
        '3'
    } else if d == 4 {
        '4'
    } else if d == 5 {
        '5'
    } else if d == 6 {
        '6'
    } else if d == 7 {
        '7'
    } else if d == 8 {
        '8'
    } else {
        '9'
    }
}

/// The decimal rendering of a nonnegative integer, most significant digit
/// first, without leading zeros (except for zero itself).
pub open spec fn spec_digits(n: int) -> Seq<char>
    recommends
        n >= 0,
    decreases n,
{
    if n < 10 {
        seq![digit_char(n)]
    } else {
        spec_digits(n / 10) + seq![digit_char(n % 10)]
    }
}

/// The value a digit character stands for.
pub open spec fn char_digit(c: char) -> int {
    if c == '0' {
        0
    } else if c == '1' {
        1
    } else if c == '2' {
        2
    } else if c == '3' {
        3
    } else if c == '4' {
        4
    } else if c == '5' {
        5
    } else if c == '6' {
        6
    } else if c == '7' {
        7
    } else if c == '8' {
        8
    } else {
        9
    }
}

/// The integer a digit string stands for.
pub open spec fn digits_val(s: Seq<char>) -> int
    decreases s.len(),
{
    if s.len() == 0 {
        0
    } else {
        digits_val(s.drop_last()) * 10 + char_digit(s.last())
    }
}

/// Rendering is inverted by evaluation, so it is injective.
pub proof fn lemma_digits_value(n: int)
    requires
        n >= 0,
    ensures
        digits_val(spec_digits(n)) == n,
    decreases n,
{
    if n < 10 {
        let s = spec_digits(n);
        assert(s == seq![digit_char(n)]);
        assert(s.drop_last() =~= Seq::<char>::empty());
        assert(digits_val(Seq::<char>::empty()) == 0);
        assert(s.last() == digit_char(n));
        assert(digits_val(s) == char_digit(digit_char(n)));
    } else {
        assert(n / 10 < n && n / 10 >= 0) by (nonlinear_arith)
            requires
                n >= 10,
        ;
        lemma_digits_value(n / 10);
        lemma_fundamental_div_mod(n, 10);
        let s = spec_digits(n);
        assert(s == spec_digits(n / 10) + seq![digit_char(n % 10)]);
        assert(s.drop_last() =~= spec_digits(n / 10));
        assert(s.last() == digit_char(n % 10));
        assert(0 <= n % 10 <= 9);
        assert(char_digit(digit_char(n % 10)) == n % 10);
    }
}

/// The name that the auto-rename merge policy tries for counter `k`.
pub open spec fn candidate_name(base: Seq<char>, k: int) -> Seq<char> {
    base + seq!['-'] + spec_digits(k)
}

/// Distinct counters give distinct candidate names.
pub proof fn lemma_candidate_injective(base: Seq<char>, k1: int, k2: int)
    requires
        k1 >= 0,
        k2 >= 0,
        k1 != k2,
    ensures
        candidate_name(base, k1) != candidate_name(base, k2),
{
    if candidate_name(base, k1) == candidate_name(base, k2) {
        let c1 = candidate_name(base, k1);
        let c2 = candidate_name(base, k2);
        assert(c1.len() == base.len() + 1 + spec_digits(k1).len());
        assert(spec_digits(k1).len() == spec_digits(k2).len());
        assert(spec_digits(k1) =~= c1.subrange(base.len() as int + 1, c1.len() as int));
        assert(spec_digits(k2) =~= c2.subrange(base.len() as int + 1, c2.len() as int));
        assert(spec_digits(k1) == spec_digits(k2));
        lemma_digits_value(k1);
        lemma_digits_value(k2);
    }
}

/// Whether `k` is the least counter whose candidate name is free.
pub open spec fn is_least_free(ps: Seq<PromptV>, base: Seq<char>, k: int) -> bool {
    &&& 1 <= k
    &&& !name_taken(ps, candidate_name(base, k))
    &&& forall|j: int| 1 <= j < k ==> name_taken(ps, #[trigger] candidate_name(base, j))
}

/// The least free rename counter.
pub open spec fn least_free_of(ps: Seq<PromptV>, base: Seq<char>) -> int {
    choose|k: int| is_least_free(ps, base, k)
}

pub proof fn lemma_least_free_unique(ps: Seq<PromptV>, base: Seq<char>, k1: int, k2: int)
    requires
        is_least_free(ps, base, k1),
        is_least_free(ps, base, k2),
    ensures
        k1 == k2,
{
    if k1 < k2 {
        assert(name_taken(ps, candidate_name(base, k1)));
    }
    if k2 < k1 {
        assert(name_taken(ps, candidate_name(base, k2)));
    }
}

/// Among the first `ps.len() + 1` candidate names, one is always free: there
/// are more candidates than stored prompts, and candidates are pairwise
/// distinct.
proof fn lemma_free_candidate_from(ps: Seq<PromptV>, base: Seq<char>, lo: int)
    requires
        lo >= 1,
    ensures
        exists|k: int|
            lo <= k <= lo + ps.len() && !name_taken(ps, #[trigger] candidate_name(base, k)),
    decreases ps.len(),
{
    if !name_taken(ps, candidate_name(base, lo)) {
        assert(lo <= lo <= lo + ps.len() && !name_taken(ps, candidate_name(base, lo)));
    } else {
        let idx = choose|i: int| 0 <= i < ps.len() && (#[trigger] ps[i]).name == candidate_name(
            base,
            lo,
        );
        let ps2 = ps.remove(idx);
        ps.remove_ensures(idx);
        lemma_free_candidate_from(ps2, base, lo + 1);
        let k = choose|k: int|
            lo + 1 <= k <= lo + 1 + ps2.len() && !name_taken(
                ps2,
                #[trigger] candidate_name(base, k),
            );
        lemma_candidate_injective(base, lo, k);
        if name_taken(ps, candidate_name(base, k)) {
            let j = choose|j: int|
                0 <= j < ps.len() && (#[trigger] ps[j]).name == candidate_name(base, k);
            if j == idx {
                assert(candidate_name(base, lo) == candidate_name(base, k));
            } else if j < idx {
                assert(ps2[j] == ps[j]);
                assert(name_taken(ps2, candidate_name(base, k)));
            } else {
                assert(ps2[j - 1] == ps[j]);
                assert(name_taken(ps2, candidate_name(base, k)));
            }
        }
        assert(lo <= k <= lo + ps.len() && !name_taken(ps, candidate_name(base, k)));
    }
}

/// The least free rename counter exists and is at most `ps.len() + 1`.
pub proof fn lemma_least_free_exists(ps: Seq<PromptV>, base: Seq<char>)
    ensures
        is_least_free(ps, base, least_free_of(ps, base)),
        least_free_of(ps, base) <= ps.len() + 1,
{
    lemma_free_candidate_from(ps, base, 1);
    let k0 = choose|k: int|
        1 <= k <= 1 + ps.len() && !name_taken(ps, #[trigger] candidate_name(base, k));
    lemma_least_from(ps, base, k0);
    let least = choose|k: int| is_least_free(ps, base, k);
    assert(is_least_free(ps, base, least));
    if least > k0 {
        assert(name_taken(ps, candidate_name(base, k0)));
    }
    lemma_least_free_unique(ps, base, least, least_free_of(ps, base));
}

proof fn lemma_least_from(ps: Seq<PromptV>, base: Seq<char>, k0: int)
    requires
        1 <= k0,
        !name_taken(ps, candidate_name(base, k0)),
    ensures
        exists|k: int| is_least_free(ps, base, k),
    decreases k0,
{
    if forall|j: int| 1 <= j < k0 ==> name_taken(ps, #[trigger] candidate_name(base, j)) {
        assert(is_least_free(ps, base, k0));
    } else {
        let j = choose|j: int|
            1 <= j < k0 && !name_taken(ps, #[trigger] candidate_name(base, j));
        lemma_least_from(ps, base, j);
    }
}

// ---------------------------------------------------------------------------
// Executable rendering and free-name search
// ---------------------------------------------------------------------------

fn digit_str(d: u128) -> (r: &'static str)
    requires
        d <= 9,
    ensures
        r@ == seq![digit_char(d as int)],
{
    let r: &'static str = if d == 0 {
        "0"
    } else if d == 1 {
        "1"
    } else if d == 2 {
        "2"
    } else if d == 3 {
        "3"
    } else if d == 4 {
        "4"
    } else if d == 5 {
        "5"
    } else if d == 6 {
        "6"
    } else if d == 7 {
        "7"
    } else if d == 8 {
        "8"
    } else {
        "9"
    };
    proof {
        reveal_strlit("0");
        reveal_strlit("1");
        reveal_strlit("2");
        reveal_strlit("3");
        reveal_strlit("4");
        reveal_strlit("5");
        reveal_strlit("6");
        reveal_strlit("7");
        reveal_strlit("8");
        reveal_strlit("9");
        assert(r@ =~= seq![digit_char(d as int)]);
    }
    r
}

/// The decimal rendering of `n`.
fn uint_to_string(n: u128) -> (r: String)
    ensures
        r@ == spec_digits(n as int),
    decreases n,
{
    if n < 10 {
        String::from_str(digit_str(n))
    } else {
        proof {
            assert(n as int / 10 < n as int && n as int / 10 >= 0) by (nonlinear_arith)
                requires
                    n >= 10,
            ;
        }
        let mut s = uint_to_string(n / 10);
        let d = digit_str(n % 10);
        s.append(d);
        proof {
            assert(n / 10 == n as int / 10);
            assert(n % 10 == n as int % 10);
            assert(spec_digits(n as int) == spec_digits(n as int / 10) + seq![
                digit_char(n as int % 10),
            ]);
        }
        s
    }
}

/// The candidate name for counter `k`: the base name, a hyphen, the counter.
fn rename_candidate(base: &String, k: u128) -> (r: String)
    ensures
        r@ == candidate_name(base@, k as int),
{
    let mut s = base.clone();
    s.append("-");
    let num = uint_to_string(k);
    s.append(num.as_str());
    proof {
        reveal_strlit("-");
        assert(("-")@ =~= seq!['-']);
        assert(s@ =~= base@ + seq!['-'] + spec_digits(k as int));
    }
    s
}

/// The first free name of the form `base-1`, `base-2`, … — auto-rename
/// scans counters upward from 1 until a name is unused, which the pigeonhole
/// argument above guarantees to happen within `prompts.len() + 1` tries.
fn find_free_name(db: &Database, base: &String) -> (r: String)
    ensures
        is_least_free(db@.prompts, base@, least_free_of(db@.prompts, base@)),
        r@ == candidate_name(base@, least_free_of(db@.prompts, base@)),
{
    let ghost ps = db@.prompts;
    let n_exec = db.prompts.len();
    proof {
        lemma_database_view(db);
        assert(ps.len() == n_exec);
        lemma_least_free_exists(ps, base@);
    }
    let ghost k0 = least_free_of(ps, base@);
    let mut counter: u128 = 1;
    let mut cand = rename_candidate(base, counter);
    let mut taken = match db.prompt_exists(cand.as_str()) {
        Ok(b) => b,
        Err(_) => unreached(),
    };
    while taken
        invariant
            ps == db@.prompts,
            ps.len() <= usize::MAX,
            1 <= counter <= k0,
            k0 == least_free_of(ps, base@),
            is_least_free(ps, base@, k0),
            k0 <= ps.len() + 1,
            cand@ == candidate_name(base@, counter as int),
            taken == name_taken(ps, cand@),
        decreases k0 - counter,
    {
        proof {
            if counter == k0 {
                assert(!name_taken(ps, candidate_name(base@, k0)));
            }
            assert(counter < k0);
        }
        counter = counter + 1;
        cand = rename_candidate(base, counter);
        taken = match db.prompt_exists(cand.as_str()) {
            Ok(b) => b,
            Err(_) => unreached(),
        };
    }
    proof {
        assert forall|j: int|
            1 <= j < counter implies name_taken(ps, #[trigger] candidate_name(base@, j)) by {
            assert(is_least_free(ps, base@, k0));
        }
        assert(is_least_free(ps, base@, counter as int));
        lemma_least_free_unique(ps, base@, counter as int, k0);
    }
    cand
}

// ---------------------------------------------------------------------------
// Import
// ---------------------------------------------------------------------------

/// The rule applied when an imported prompt's name collides with a stored
/// one: keep the stored prompt, replace its content, or store the import
/// under a fresh suffixed name.
#[derive(Clone, Copy, Debug, PartialEq, Eq)]
pub enum MergeStrategy {
    Skip,
    Overwrite,
    Rename,
}

/// How many prompts an import created, updated and skipped.
#[derive(Debug, PartialEq, Eq, Structural)]
pub struct ImportStats {
    pub created: usize,
    pub updated: usize,
    pub skipped: usize,
}

/// The store after a successful create of `p`.
pub open spec fn spec_create(s: StoreV, p: PromptV) -> StoreV {
    StoreV { prompts: s.prompts.push(stored_prompt(p)), tags: register_tags(s.tags, p.tags) }
}

/// The store after overwriting the prompt named like `p` with `p`'s content,
/// variables and tags.
pub open spec fn spec_overwrite(s: StoreV, p: PromptV) -> StoreV {
    let k = find_prompt(s.prompts, p.name);
    StoreV {
        prompts: s.prompts.update(k, merged_prompt(s.prompts[k], p)),
        tags: register_tags(s.tags, p.tags),
    }
}

/// The outcome of importing a list of prompts: the final store, the three
/// counters, and whether a step failed (on failure the store is the state
/// just before the failing step — earlier steps remain applied, as each is
/// its own unit of work).
pub struct ImportOutcome {
    pub store: StoreV,
    pub created: nat,
    pub updated: nat,
    pub skipped: nat,
    pub failed: bool,
}

/// The import fold: each prompt is created under its own name when that is
/// free, and otherwise handled by the merge policy — skipped, overwritten,
/// or created under the first free `name-1`, `name-2`, … candidate.
pub open spec fn import_all(s: StoreV, ps: Seq<PromptV>, merge: MergeStrategy) -> ImportOutcome
    decreases ps.len(),
{
    if ps.len() == 0 {
        ImportOutcome { store: s, created: 0, updated: 0, skipped: 0, failed: false }
    } else {
        let p = ps[0];
        if name_taken(s.prompts, p.name) {
            match merge {
                MergeStrategy::Skip => {
                    let o = import_all(s, ps.drop_first(), merge);
                    ImportOutcome { skipped: o.skipped + 1, ..o }
                },
                MergeStrategy::Overwrite => {
                    if updatable(p) {
                        let o = import_all(spec_overwrite(s, p), ps.drop_first(), merge);
                        ImportOutcome { updated: o.updated + 1, ..o }
                    } else {
                        ImportOutcome {
                            store: s,
                            created: 0,
                            updated: 0,
                            skipped: 0,
                            failed: true,
                        }
                    }
                },
                MergeStrategy::Rename => {
                    let k = least_free_of(s.prompts, p.name);
                    let p2 = PromptV { name: candidate_name(p.name, k), ..p };
                    if creatable(p2) && !id_taken(s.prompts, p2.id) {
                        let o = import_all(spec_create(s, p2), ps.drop_first(), merge);
                        ImportOutcome { created: o.created + 1, ..o }
                    } else {
                        ImportOutcome {
                            store: s,
                            created: 0,
                            updated: 0,
                            skipped: 0,
                            failed: true,
                        }
                    }
                },
            }
        } else {
            if creatable(p) && !id_taken(s.prompts, p.id) {
                let o = import_all(spec_create(s, p), ps.drop_first(), merge);
                ImportOutcome { created: o.created + 1, ..o }
            } else {
                ImportOutcome { store: s, created: 0, updated: 0, skipped: 0, failed: true }
            }
        }
    }
}

/// Imports a list of prompts under a merge policy. Each prompt is one unit
/// of work; on the first failing step the error is returned and the store
/// keeps the steps applied so far, exactly as the fold `import_all`
/// describes.
pub fn import_prompts(
    db: &mut Database,
    prompts: &Vec<crate::models::Prompt>,
    merge: MergeStrategy,
) -> (r: Result<ImportStats, PromptedsError>)
    requires
        old(db).wf(),
    ensures
        final(db).wf(),
        final(db)@ == import_all(old(db)@, prompts.deep_view(), merge).store,
        !import_all(old(db)@, prompts.deep_view(), merge).failed ==> (r matches Ok(st)
            && st.created == import_all(old(db)@, prompts.deep_view(), merge).created
            && st.updated == import_all(old(db)@, prompts.deep_view(), merge).updated
            && st.skipped == import_all(old(db)@, prompts.deep_view(), merge).skipped),
        import_all(old(db)@, prompts.deep_view(), merge).failed ==> r is Err,
{
    let ghost ps = prompts.deep_view();
    let ghost s0 = old(db)@;
    let mut created: usize = 0;
    let mut updated: usize = 0;
    let mut skipped: usize = 0;
    proof {
        assert(ps.skip(0) =~= ps);
    }
    let mut k: usize = 0;
    while k < prompts.len()
        invariant
            db.wf(),
            ps == prompts.deep_view(),
            s0 == old(db)@,
            k <= ps.len(),
            created <= k,
            updated <= k,
            skipped <= k,
            ({
                let o_rest = import_all(db@, ps.skip(k as int), merge);
                let o_all = import_all(s0, ps, merge);
                &&& o_all.failed == o_rest.failed
                &&& o_all.store == o_rest.store
                &&& o_all.created == created + o_rest.created
                &&& o_all.updated == updated + o_rest.updated
                &&& o_all.skipped == skipped + o_rest.skipped
            }),
        decreases ps.len() - k,
    {
        let ghost pre = db@;
        proof {
            assert(ps.skip(k as int)[0] == ps[k as int]);
            assert(ps.skip(k as int).drop_first() =~= ps.skip(k as int + 1));
            assert(ps[k as int] == prompts@[k as int]@);
        }
        let p = &prompts[k];
        let exists_name = match db.prompt_exists(p.name.as_str()) {
            Ok(b) => b,
            Err(_) => unreached(),
        };
        if exists_name {
            match merge {
                MergeStrategy::Skip => {
                    skipped += 1;
                    proof {
                        let o2 = import_all(db@, ps.skip(k as int + 1), merge);
                        assert(import_all(db@, ps.skip(k as int), merge) == ImportOutcome {
                            skipped: o2.skipped + 1,
                            ..o2
                        });
                    }
                },
                MergeStrategy::Overwrite => {
                    let existing = match db.get_prompt(p.name.as_str()) {
                        Ok(e) => e,
                        Err(_) => unreached(),
                    };
                    let mut carrier = p.duplicate();
                    carrier.id = existing.id;
                    proof {
                        lemma_find_prompt(pre.prompts, ps[k as int].name);
                        lemma_find_by_id(pre.prompts, carrier@.id);
                        let f = find_prompt(pre.prompts, ps[k as int].name);
                        let g = find_by_id(pre.prompts, carrier@.id);
                        assert(pre.prompts[f].id == carrier@.id);
                        assert(id_taken(pre.prompts, carrier@.id));
                        if g < f {
                            assert(pre.prompts[g].id != pre.prompts[f].id);
                        }
                        if f < g {
                            assert(pre.prompts[f].id != pre.prompts[g].id);
                        }
                        assert(g == f);
                        assert(updatable(carrier@) == updatable(ps[k as int]));
                    }
                    match db.update_prompt(&carrier) {
                        Ok(_) => {
                            updated += 1;
                            proof {
                                let f = find_prompt(pre.prompts, ps[k as int].name);
                                assert(merged_prompt(pre.prompts[f], carrier@) == merged_prompt(
                                    pre.prompts[f],
                                    ps[k as int],
                                ));
                                assert(db@ == spec_overwrite(pre, ps[k as int]));
                                let o2 = import_all(db@, ps.skip(k as int + 1), merge);
                                assert(import_all(pre, ps.skip(k as int), merge) == ImportOutcome {
                                    updated: o2.updated + 1,
                                    ..o2
                                });
                            }
                        },
                        Err(e) => {
                            proof {
                                assert(!updatable(ps[k as int]));
                                assert(import_all(pre, ps.skip(k as int), merge).failed);
                                assert(db@ == pre);
                            }
                            return Err(e);
                        },
                    }
                },
                MergeStrategy::Rename => {
                    let new_name = find_free_name(db, &p.name);
                    let ghost kc = least_free_of(pre.prompts, ps[k as int].name);
                    let ghost p2 = (PromptV {
                        name: candidate_name(ps[k as int].name, kc),
                        ..ps[k as int]
                    });
                    let mut carrier = p.duplicate();
                    carrier.name = new_name;
                    proof {
                        assert(carrier@ == p2);
                        assert(!name_taken(pre.prompts, p2.name));
                    }
                    match db.create_prompt(&carrier) {
                        Ok(_) => {
                            created += 1;
                            proof {
                                assert(db@ == spec_create(pre, p2));
                                let o2 = import_all(db@, ps.skip(k as int + 1), merge);
                                assert(import_all(pre, ps.skip(k as int), merge) == ImportOutcome {
                                    created: o2.created + 1,
                                    ..o2
                                });
                            }
                        },
                        Err(e) => {
                            proof {
                                assert(!(creatable(p2) && !id_taken(pre.prompts, p2.id)));
                                assert(import_all(pre, ps.skip(k as int), merge).failed);
                                assert(db@ == pre);
                            }
                            return Err(e);
                        },
                    }
                },
            }
        } else {
            match db.create_prompt(p) {
                Ok(_) => {
                    created += 1;
                    proof {
                        assert(db@ == spec_create(pre, ps[k as int]));
                        let o2 = import_all(db@, ps.skip(k as int + 1), merge);
                        assert(import_all(pre, ps.skip(k as int), merge) == ImportOutcome {
                            created: o2.created + 1,
                            ..o2
                        });
                    }
                },
                Err(e) => {
                    proof {
                        assert(!(creatable(ps[k as int]) && !id_taken(
                            pre.prompts,
                            ps[k as int].id,
                        )));
                        assert(import_all(pre, ps.skip(k as int), merge).failed);
                        assert(db@ == pre);
                    }
                    return Err(e);
                },
            }
        }
        k += 1;
    }
    proof {
        assert(ps.skip(ps.len() as int) =~= Seq::<PromptV>::empty());
        assert(import_all(db@, Seq::<PromptV>::empty(), merge) == ImportOutcome {
            store: db@,
            created: 0nat,
            updated: 0nat,
            skipped: 0nat,
            failed: false,
        });
    }
    Ok(ImportStats { created, updated, skipped })
}

/// The export document: the caller's format version string, the current
/// time, and every stored prompt, newest first.
pub fn build_export(db: &Database, version: String) -> (r: Result<ExportData, PromptedsError>)
    ensures
        r matches Ok(e) && e.version@ == version@ && (exists|sorted: Seq<PromptV>|
            {
                &&& (#[trigger] sorted.to_multiset()) == db@.prompts.to_multiset()
                &&& sorted_desc_prompts(sorted)
                &&& e.prompts.deep_view() == sorted
            }),
{
    let prompts = match db.get_all_prompts() {
        Ok(v) => v,
        Err(_) => unreached(),
    };
    let exported_at = sys::now_millis();
    Ok(ExportData { version, exported_at, prompts })
}

} // verus!
