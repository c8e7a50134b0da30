//! The local persistence store: a problem cache, chat transcripts and an
//! append-only daily solve ledger, with derived activity aggregation.
//!
//! The store holds its rows in memory and is specified against a
//! mathematical view (`DatabaseV`); every operation states exactly how it
//! changes that view. Durable storage, clocks and calendars live with
//! the caller: operations that depend on time take the current timestamp
//! or calendar day as a plain argument.

use vstd::prelude::*;

use crate::encode::{encode_samples, encode_samples_spec};
use crate::extract::{Problem, ProblemV};
use crate::text::{seq_views, str_eq};

verus! {

/// A cached problem row: the extracted fields, the serialized samples,
/// a surrogate row id and the creation timestamp (seconds).
pub struct ProblemRecord {
    pub id: i64,
    pub problem_id: String,
    pub title: String,
    pub description: String,
    pub input_description: String,
    pub output_description: String,
    pub samples_json: String,
    pub time_limit: String,
    pub memory_limit: String,
    pub created_at: i64,
}

#[verifier::ext_equal]
pub struct ProblemRecordV {
    pub id: int,
    pub problem_id: Seq<char>,
    pub title: Seq<char>,
    pub description: Seq<char>,
    pub input_description: Seq<char>,
    pub output_description: Seq<char>,
    pub samples_json: Seq<char>,
    pub time_limit: Seq<char>,
    pub memory_limit: Seq<char>,
    pub created_at: int,
}

impl View for ProblemRecord {
    type V = ProblemRecordV;

    open spec fn view(&self) -> ProblemRecordV {
        ProblemRecordV {
            id: self.id as int,
            problem_id: self.problem_id@,
            title: self.title@,
            description: self.description@,
            input_description: self.input_description@,
            output_description: self.output_description@,
            samples_json: self.samples_json@,
            time_limit: self.time_limit@,
            memory_limit: self.memory_limit@,
            created_at: self.created_at as int,
        }
    }
}

impl Clone for ProblemRecord {
    fn clone(&self) -> (res: Self)
        ensures
            res == *self,
    {
        ProblemRecord {
            id: self.id,
            problem_id: self.problem_id.clone(),
            title: self.title.clone(),
            description: self.description.clone(),
            input_description: self.input_description.clone(),
            output_description: self.output_description.clone(),
            samples_json: self.samples_json.clone(),
            time_limit: self.time_limit.clone(),
            memory_limit: self.memory_limit.clone(),
            created_at: self.created_at,
        }
    }
}

/// One chat transcript row per problem identifier, with creation and
/// update timestamps (seconds).
pub struct ChatRecord {
    pub id: i64,
    pub problem_id: String,
    pub messages_json: String,
    pub created_at: i64,
    pub updated_at: i64,
}

#[verifier::ext_equal]
pub struct ChatRecordV {
    pub id: int,
    pub problem_id: Seq<char>,
    pub messages_json: Seq<char>,
    pub created_at: int,
    pub updated_at: int,
}

impl View for ChatRecord {
    type V = ChatRecordV;

    open spec fn view(&self) -> ChatRecordV {
        ChatRecordV {
            id: self.id as int,
            problem_id: self.problem_id@,
            messages_json: self.messages_json@,
            created_at: self.created_at as int,
            updated_at: self.updated_at as int,
        }
    }
}

impl Clone for ChatRecord {
    fn clone(&self) -> (res: Self)
        ensures
            res == *self,
    {
        ChatRecord {
            id: self.id,
            problem_id: self.problem_id.clone(),
            messages_json: self.messages_json.clone(),
            created_at: self.created_at,
            updated_at: self.updated_at,
        }
    }
}

/// One ledger entry: a problem was recorded solved on a calendar day
/// (a day number).
pub struct SolveRecord {
    pub id: i64,
    pub problem_id: String,
    pub solved_at: i64,
}

#[verifier::ext_equal]
pub struct SolveRecordV {
    pub id: int,
    pub problem_id: Seq<char>,
    pub solved_at: int,
}

impl View for SolveRecord {
    type V = SolveRecordV;

    open spec fn view(&self) -> SolveRecordV {
        SolveRecordV {
            id: self.id as int,
            problem_id: self.problem_id@,
            solved_at: self.solved_at as int,
        }
    }
}

impl Clone for SolveRecord {
    fn clone(&self) -> (res: Self)
        ensures
            res == *self,
    {
        SolveRecord { id: self.id, problem_id: self.problem_id.clone(), solved_at: self.solved_at }
    }
}

/// One day of derived activity: the day, how many solves it saw, and the
/// bucketed intensity level.
#[derive(Clone, Copy)]
pub struct ActivityData {
    pub date: i64,
    pub count: usize,
    pub level: u8,
}

#[verifier::ext_equal]
pub struct ActivityDataV {
    pub date: int,
    pub count: int,
    pub level: int,
}

impl View for ActivityData {
    type V = ActivityDataV;

    open spec fn view(&self) -> ActivityDataV {
        ActivityDataV { date: self.date as int, count: self.count as int, level: self.level as int }
    }
}

#[verifier::ext_equal]
pub struct DatabaseV {
    pub problems: Seq<ProblemRecordV>,
    pub chats: Seq<ChatRecordV>,
    pub solves: Seq<SolveRecordV>,
    pub next_problem_id: int,
    pub next_chat_id: int,
    pub next_solve_id: int,
}

/// The persistence store. All rows are owned by the store; queries hand
/// out by-value copies.
pub struct Database {
    problems: Vec<ProblemRecord>,
    chats: Vec<ChatRecord>,
    solves: Vec<SolveRecord>,
    next_problem_id: i64,
    next_chat_id: i64,
    next_solve_id: i64,
}

impl View for Database {
    type V = DatabaseV;

    closed spec fn view(&self) -> DatabaseV {
        DatabaseV {
            problems: seq_views(self.problems@),
            chats: seq_views(self.chats@),
            solves: seq_views(self.solves@),
            next_problem_id: self.next_problem_id as int,
            next_chat_id: self.next_chat_id as int,
            next_solve_id: self.next_solve_id as int,
        }
    }
}

pub open spec fn problem_ids(ps: Seq<ProblemRecordV>) -> Seq<Seq<char>> {
    ps.map_values(|r: ProblemRecordV| r.problem_id)
}

pub open spec fn chat_ids(cs: Seq<ChatRecordV>) -> Seq<Seq<char>> {
    cs.map_values(|r: ChatRecordV| r.problem_id)
}

pub open spec fn solve_keys(ss: Seq<SolveRecordV>) -> Seq<(Seq<char>, int)> {
    ss.map_values(|r: SolveRecordV| (r.problem_id, r.solved_at))
}

/// The problem cache keeps exactly one row per problem identifier, and
/// its rows are ordered newest-created first.
pub open spec fn problems_wf(ps: Seq<ProblemRecordV>) -> bool {
    &&& forall|i: int, j: int|
        0 <= i < j < ps.len() ==> ps[i].problem_id != ps[j].problem_id
    &&& forall|i: int, j: int| 0 <= i <= j < ps.len() ==> ps[i].created_at >= ps[j].created_at
    &&& forall|i: int| 0 <= i < ps.len() ==> #[trigger] ps[i].id >= 1
}

/// The chat table keeps exactly one row per problem identifier.
pub open spec fn chats_wf(cs: Seq<ChatRecordV>) -> bool {
    &&& forall|i: int, j: int| 0 <= i < j < cs.len() ==> cs[i].problem_id != cs[j].problem_id
    &&& forall|i: int| 0 <= i < cs.len() ==> #[trigger] cs[i].id >= 1
}

/// The ledger keeps at most one row per problem identifier and calendar
/// day.
pub open spec fn solves_wf(ss: Seq<SolveRecordV>) -> bool {
    &&& forall|i: int, j: int|
        0 <= i < j < ss.len() ==> !(ss[i].problem_id == ss[j].problem_id && ss[i].solved_at
            == ss[j].solved_at)
    &&& forall|i: int| 0 <= i < ss.len() ==> #[trigger] ss[i].id >= 1
}

pub open spec fn database_wf(s: DatabaseV) -> bool {
    &&& problems_wf(s.problems)
    &&& chats_wf(s.chats)
    &&& solves_wf(s.solves)
    &&& s.next_problem_id >= 1
    &&& s.next_chat_id >= 1
    &&& s.next_solve_id >= 1
}

/// The index of the first (and, in a well-formed table, only) occurrence
/// of a key, or -1 when it does not occur.
pub open spec fn find_index<K>(keys: Seq<K>, key: K) -> int
    decreases keys.len(),
{
    if keys.len() == 0 {
        -1
    } else if keys[0] == key {
        0
    } else {
        let r = find_index(keys.drop_first(), key);
        if r < 0 {
            -1
        } else {
            r + 1
        }
    }
}

pub proof fn lemma_find_index<K>(keys: Seq<K>, key: K)
    ensures
        -1 <= find_index(keys, key) < keys.len(),
        find_index(keys, key) >= 0 ==> keys[find_index(keys, key)] == key,
        find_index(keys, key) == -1 ==> forall|k: int| 0 <= k < keys.len() ==> keys[k] != key,
        forall|k: int| 0 <= k < find_index(keys, key) ==> keys[k] != key,
    decreases keys.len(),
{
    if keys.len() == 0 {
    } else if keys[0] == key {
    } else {
        lemma_find_index(keys.drop_first(), key);
        let r = find_index(keys.drop_first(), key);
        if r < 0 {
            assert forall|k: int| 0 <= k < keys.len() implies keys[k] != key by {
                if k > 0 {
                    assert(keys.drop_first()[k - 1] == keys[k]);
                }
            }
        } else {
            assert forall|k: int| 0 <= k < r + 1 implies keys[k] != key by {
                if k > 0 {
                    assert(keys.drop_first()[k - 1] == keys[k]);
                }
            }
        }
    }
}

pub proof fn lemma_find_index_hit<K>(keys: Seq<K>, key: K, i: int)
    requires
        0 <= i < keys.len(),
        keys[i] == key,
        forall|k: int| 0 <= k < i ==> keys[k] != key,
    ensures
        find_index(keys, key) == i,
    decreases i,
{
    if i == 0 {
    } else {
        assert(keys[0] != key);
        assert(forall|k: int| 0 <= k < i - 1 ==> keys.drop_first()[k] != key);
        lemma_find_index_hit(keys.drop_first(), key, i - 1);
    }
}

pub proof fn lemma_find_index_miss<K>(keys: Seq<K>, key: K)
    requires
        forall|k: int| 0 <= k < keys.len() ==> keys[k] != key,
    ensures
        find_index(keys, key) == -1,
    decreases keys.len(),
{
    if keys.len() == 0 {
    } else {
        assert(forall|k: int| 0 <= k < keys.len() - 1 ==> keys.drop_first()[k] != key);
        lemma_find_index_miss(keys.drop_first(), key);
    }
}

/// Row ids grow by one per insertion and stop at the largest
/// representable value.
pub open spec fn bump_id(n: int) -> int {
    if n == i64::MAX {
        n
    } else {
        n + 1
    }
}

/// The cached row a problem produces: its fields, the serialized
/// samples, the given surrogate id and creation time.
pub open spec fn problem_row_of(p: ProblemV, rowid: int, now: int) -> ProblemRecordV {
    ProblemRecordV {
        id: rowid,
        problem_id: p.id,
        title: p.title,
        description: p.description,
        input_description: p.input_description,
        output_description: p.output_description,
        samples_json: encode_samples_spec(p.samples),
        time_limit: p.time_limit,
        memory_limit: p.memory_limit,
        created_at: now,
    }
}

/// Where a row created now belongs in a newest-first table: after every
/// row created at the same time or later.
pub open spec fn insert_pos(ps: Seq<ProblemRecordV>, now: int) -> int
    decreases ps.len(),
{
    if ps.len() > 0 && ps[0].created_at >= now {
        1 + insert_pos(ps.drop_first(), now)
    } else {
        0
    }
}

pub proof fn lemma_insert_pos(ps: Seq<ProblemRecordV>, now: int)
    ensures
        0 <= insert_pos(ps, now) <= ps.len(),
        forall|k: int| 0 <= k < insert_pos(ps, now) ==> ps[k].created_at >= now,
        insert_pos(ps, now) < ps.len() ==> ps[insert_pos(ps, now)].created_at < now,
    decreases ps.len(),
{
    if ps.len() > 0 && ps[0].created_at >= now {
        lemma_insert_pos(ps.drop_first(), now);
        let pos = insert_pos(ps, now);
        assert forall|k: int| 0 <= k < pos implies ps[k].created_at >= now by {
            if k > 0 {
                assert(ps.drop_first()[k - 1] == ps[k]);
            }
        }
        if pos < ps.len() {
            assert(ps.drop_first()[pos - 1] == ps[pos]);
        }
    }
}

/// Upserting a problem: any existing row for its identifier is replaced
/// by a fresh row carrying the new fields, the next surrogate id and the
/// given creation time; the returned value is that id.
pub open spec fn save_problem_model(s: DatabaseV, p: ProblemV, now: int) -> (DatabaseV, int) {
    let j = find_index(problem_ids(s.problems), p.id);
    let removed = if j < 0 {
        s.problems
    } else {
        s.problems.remove(j)
    };
    let pos = insert_pos(removed, now);
    let row = problem_row_of(p, s.next_problem_id, now);
    (
        DatabaseV {
            problems: removed.insert(pos, row),
            chats: s.chats,
            solves: s.solves,
            next_problem_id: bump_id(s.next_problem_id),
            next_chat_id: s.next_chat_id,
            next_solve_id: s.next_solve_id,
        },
        s.next_problem_id,
    )
}

/// After a save, the store is still well-formed, the table holds exactly
/// one row for the saved identifier, that row is the fresh one, and the
/// other tables are untouched.
pub proof fn lemma_save_problem_upsert(s: DatabaseV, p: ProblemV, now: int)
    requires
        database_wf(s),
    ensures
        ({
            let s1 = save_problem_model(s, p, now).0;
            let row = problem_row_of(p, s.next_problem_id, now);
            &&& database_wf(s1)
            &&& exists|j: int|
                0 <= j < s1.problems.len() && s1.problems[j] == row && (forall|k: int|
                    0 <= k < s1.problems.len() && k != j ==> s1.problems[k].problem_id != p.id)
            &&& s1.chats == s.chats
            &&& s1.solves == s.solves
        }),
{
    let jf = find_index(problem_ids(s.problems), p.id);
    lemma_find_index(problem_ids(s.problems), p.id);
    let removed = if jf < 0 {
        s.problems
    } else {
        s.problems.remove(jf)
    };
    assert(forall|k: int|
        0 <= k < s.problems.len() ==> problem_ids(s.problems)[k] == s.problems[k].problem_id);
    if jf >= 0 {
        assert(s.problems[jf].problem_id == p.id);
        assert forall|k: int| 0 <= k < removed.len() implies (removed[k] == if k < jf {
            s.problems[k]
        } else {
            s.problems[k + 1]
        }) by {}
    }
    assert(problems_wf(removed));
    assert forall|k: int| 0 <= k < removed.len() implies removed[k].problem_id != p.id by {
        if jf >= 0 {
            if k < jf {
                assert(removed[k] == s.problems[k]);
                assert(s.problems[k].problem_id != s.problems[jf].problem_id);
            } else {
                assert(removed[k] == s.problems[k + 1]);
                assert(s.problems[jf].problem_id != s.problems[k + 1].problem_id);
            }
        } else {
            assert(removed[k] == s.problems[k]);
            assert(problem_ids(s.problems)[k] == s.problems[k].problem_id);
            assert(problem_ids(s.problems)[k] != p.id);
        }
    }
    let pos = insert_pos(removed, now);
    lemma_insert_pos(removed, now);
    let row = problem_row_of(p, s.next_problem_id, now);
    let inserted = removed.insert(pos, row);
    assert forall|k: int| 0 <= k < inserted.len() implies (inserted[k] == if k < pos {
        removed[k]
    } else if k == pos {
        row
    } else {
        removed[k - 1]
    }) by {}
    assert(problems_wf(inserted)) by {
        assert forall|i: int, j: int|
            0 <= i < j < inserted.len() implies inserted[i].problem_id
            != inserted[j].problem_id by {}
        assert forall|i: int, j: int|
            0 <= i <= j < inserted.len() implies inserted[i].created_at
            >= inserted[j].created_at by {}
    }
    let s1 = save_problem_model(s, p, now).0;
    assert(s1.problems == inserted);
    assert(inserted[pos] == row);
    assert(forall|k: int|
        0 <= k < inserted.len() && k != pos ==> inserted[k].problem_id != p.id);
}

/// Law: saving the same problem twice leaves exactly one cached row for
/// its identifier, and that row carries the second call's fields and
/// creation time.
pub proof fn lemma_save_problem_idempotent(s: DatabaseV, p: ProblemV, t1: int, t2: int)
    requires
        database_wf(s),
    ensures
        ({
            let s1 = save_problem_model(s, p, t1).0;
            let s2 = save_problem_model(s1, p, t2).0;
            exists|j: int|
                0 <= j < s2.problems.len() && s2.problems[j] == problem_row_of(
                    p,
                    s1.next_problem_id,
                    t2,
                ) && (forall|k: int|
                    0 <= k < s2.problems.len() && k != j ==> s2.problems[k].problem_id != p.id)
        }),
{
    lemma_save_problem_upsert(s, p, t1);
    let s1 = save_problem_model(s, p, t1).0;
    lemma_save_problem_upsert(s1, p, t2);
}

/// Saving a chat: when a row for the identifier exists its messages and
/// update time are overwritten in place and its id returned; otherwise a
/// fresh row is appended with both timestamps set to now.
pub open spec fn save_chat_model(s: DatabaseV, pid: Seq<char>, messages: Seq<char>, now: int) -> (
    DatabaseV,
    int,
) {
    let j = find_index(chat_ids(s.chats), pid);
    if j >= 0 {
        let updated = ChatRecordV {
            id: s.chats[j].id,
            problem_id: s.chats[j].problem_id,
            messages_json: messages,
            created_at: s.chats[j].created_at,
            updated_at: now,
        };
        (
            DatabaseV {
                problems: s.problems,
                chats: s.chats.update(j, updated),
                solves: s.solves,
                next_problem_id: s.next_problem_id,
                next_chat_id: s.next_chat_id,
                next_solve_id: s.next_solve_id,
            },
            s.chats[j].id,
        )
    } else {
        let fresh = ChatRecordV {
            id: s.next_chat_id,
            problem_id: pid,
            messages_json: messages,
            created_at: now,
            updated_at: now,
        };
        (
            DatabaseV {
                problems: s.problems,
                chats: s.chats.push(fresh),
                solves: s.solves,
                next_problem_id: s.next_problem_id,
                next_chat_id: bump_id(s.next_chat_id),
                next_solve_id: s.next_solve_id,
            },
            s.next_chat_id,
        )
    }
}

/// Deleting a problem removes its cache row and its chat row, each when
/// present; the ledger is untouched.
pub open spec fn delete_problem_model(s: DatabaseV, pid: Seq<char>) -> DatabaseV {
    let jp = find_index(problem_ids(s.problems), pid);
    let jc = find_index(chat_ids(s.chats), pid);
    DatabaseV {
        problems: if jp < 0 {
            s.problems
        } else {
            s.problems.remove(jp)
        },
        chats: if jc < 0 {
            s.chats
        } else {
            s.chats.remove(jc)
        },
        solves: s.solves,
        next_problem_id: s.next_problem_id,
        next_chat_id: s.next_chat_id,
        next_solve_id: s.next_solve_id,
    }
}

/// A problem is recorded solved today exactly when the ledger holds a
/// row for the identifier and day.
pub open spec fn is_solved_model(s: DatabaseV, pid: Seq<char>, day: int) -> bool {
    find_index(solve_keys(s.solves), (pid, day)) >= 0
}

/// Recording a solve: a no-op returning 0 when the ledger already has a
/// row for the identifier and day, else a fresh row is appended and its
/// id returned.
pub open spec fn record_solve_model(s: DatabaseV, pid: Seq<char>, day: int) -> (DatabaseV, int) {
    if is_solved_model(s, pid, day) {
        (s, 0)
    } else {
        let fresh = SolveRecordV { id: s.next_solve_id, problem_id: pid, solved_at: day };
        (
            DatabaseV {
                problems: s.problems,
                chats: s.chats,
                solves: s.solves.push(fresh),
                next_problem_id: s.next_problem_id,
                next_chat_id: s.next_chat_id,
                next_solve_id: bump_id(s.next_solve_id),
            },
            s.next_solve_id,
        )
    }
}

/// Unrecording a solve: today's row for the identifier is removed when
/// present; the flag says whether a row was removed.
pub open spec fn unrecord_solve_model(s: DatabaseV, pid: Seq<char>, day: int) -> (DatabaseV, bool) {
    let j = find_index(solve_keys(s.solves), (pid, day));
    if j >= 0 {
        (
            DatabaseV {
                problems: s.problems,
                chats: s.chats,
                solves: s.solves.remove(j),
                next_problem_id: s.next_problem_id,
                next_chat_id: s.next_chat_id,
                next_solve_id: s.next_solve_id,
            },
            true,
        )
    } else {
        (s, false)
    }
}

/// A ledger day is within the activity window when it is less than
/// `days` days before today.
pub open spec fn in_window(day: int, today: int, days: int) -> bool {
    today - day < days
}

/// The fixed intensity buckets for a daily solve count.
pub open spec fn level_of(count: int) -> int {
    if count <= 0 {
        0
    } else if count <= 2 {
        1
    } else if count <= 5 {
        2
    } else if count <= 10 {
        3
    } else {
        4
    }
}

/// How many ledger rows fall on a given day.
pub open spec fn count_on_day(ss: Seq<SolveRecordV>, day: int) -> int
    decreases ss.len(),
{
    if ss.len() == 0 {
        0
    } else {
        (if ss[0].solved_at == day {
            1int
        } else {
            0int
        }) + count_on_day(ss.drop_first(), day)
    }
}

pub proof fn lemma_count_on_day_push(ss: Seq<SolveRecordV>, row: SolveRecordV, day: int)
    ensures
        count_on_day(ss.push(row), day) == count_on_day(ss, day) + (if row.solved_at == day {
            1int
        } else {
            0int
        }),
    decreases ss.len(),
{
    if ss.len() == 0 {
        assert(ss.push(row)[0] == row);
        assert(ss.push(row).drop_first() =~= Seq::<SolveRecordV>::empty());
        assert(count_on_day(Seq::<SolveRecordV>::empty(), day) == 0);
        assert(count_on_day(ss.push(row), day) == (if row.solved_at == day {
            1int
        } else {
            0int
        }) + count_on_day(ss.push(row).drop_first(), day));
    } else {
        assert(ss.push(row)[0] == ss[0]);
        assert(ss.push(row).drop_first() =~= ss.drop_first().push(row));
        lemma_count_on_day_push(ss.drop_first(), row, day);
        assert(count_on_day(ss.push(row), day) == (if ss[0].solved_at == day {
            1int
        } else {
            0int
        }) + count_on_day(ss.push(row).drop_first(), day));
        assert(count_on_day(ss.push(row).drop_first(), day) == count_on_day(
            ss.drop_first().push(row),
            day,
        ));
        assert(count_on_day(ss, day) == (if ss[0].solved_at == day {
            1int
        } else {
            0int
        }) + count_on_day(ss.drop_first(), day));
    }
}

pub proof fn lemma_count_on_day_bounds(ss: Seq<SolveRecordV>, day: int)
    ensures
        0 <= count_on_day(ss, day) <= ss.len(),
    decreases ss.len(),
{
    if ss.len() > 0 {
        lemma_count_on_day_bounds(ss.drop_first(), day);
    }
}

pub proof fn lemma_count_on_day_positive(ss: Seq<SolveRecordV>, day: int)
    requires
        count_on_day(ss, day) > 0,
    ensures
        exists|k: int| 0 <= k < ss.len() && #[trigger] ss[k].solved_at == day,
    decreases ss.len(),
{
    if ss.len() > 0 {
        if ss[0].solved_at == day {
            assert(ss[0].solved_at == day);
        } else {
            lemma_count_on_day_positive(ss.drop_first(), day);
            let k = choose|k: int|
                0 <= k < ss.drop_first().len() && #[trigger] ss.drop_first()[k].solved_at == day;
            assert(ss[k + 1].solved_at == day);
        }
    }
}

/// Whether an activity list already has an entry for a day.
pub open spec fn has_date(rs: Seq<ActivityDataV>, day: int) -> bool {
    exists|i: int| 0 <= i < rs.len() && #[trigger] rs[i].date == day
}

/// Law: recording a solve twice on the same day leaves the second call a
/// no-op, and the ledger holds exactly one row for the identifier and
/// day.
pub proof fn lemma_record_solve_same_day_twice(s: DatabaseV, pid: Seq<char>, day: int)
    requires
        database_wf(s),
    ensures
        ({
            let s1 = record_solve_model(s, pid, day).0;
            let s2 = record_solve_model(s1, pid, day).0;
            let r2 = record_solve_model(s1, pid, day).1;
            &&& r2 == 0
            &&& s2 == s1
            &&& exists|j: int|
                0 <= j < s1.solves.len() && (#[trigger] s1.solves[j].problem_id) == pid
                    && s1.solves[j].solved_at == day && (forall|k: int|
                    0 <= k < s1.solves.len() && k != j ==> !((#[trigger] s1.solves[k].problem_id)
                        == pid && s1.solves[k].solved_at == day))
        }),
{
    lemma_find_index(solve_keys(s.solves), (pid, day));
    assert(forall|k: int|
        0 <= k < s.solves.len() ==> solve_keys(s.solves)[k] == (
        s.solves[k].problem_id,
        s.solves[k].solved_at,
        ));
    let s1 = record_solve_model(s, pid, day).0;
    if is_solved_model(s, pid, day) {
        let j = find_index(solve_keys(s.solves), (pid, day));
        assert(s1 == s);
        assert(s1.solves[j].problem_id == pid && s1.solves[j].solved_at == day);
        assert forall|k: int|
            0 <= k < s1.solves.len() && k != j implies !((#[trigger] s1.solves[k].problem_id)
            == pid && s1.solves[k].solved_at == day) by {
            if k < j {
                assert(!(s.solves[k].problem_id == s.solves[j].problem_id && s.solves[k].solved_at
                    == s.solves[j].solved_at));
            } else {
                assert(!(s.solves[j].problem_id == s.solves[k].problem_id && s.solves[j].solved_at
                    == s.solves[k].solved_at));
            }
        }
        assert(is_solved_model(s1, pid, day));
    } else {
        let n = s.solves.len() as int;
        assert(s1.solves =~= s.solves.push(
            SolveRecordV { id: s.next_solve_id, problem_id: pid, solved_at: day },
        ));
        assert(s1.solves[n].problem_id == pid && s1.solves[n].solved_at == day);
        assert forall|k: int|
            0 <= k < s1.solves.len() && k != n implies !((#[trigger] s1.solves[k].problem_id)
            == pid && s1.solves[k].solved_at == day) by {
            assert(s1.solves[k] == s.solves[k]);
            assert(solve_keys(s.solves)[k] != (pid, day));
        }
        assert forall|k: int|
            0 <= k < s1.solves.len() implies solve_keys(s1.solves)[k] == (
        s1.solves[k].problem_id,
        s1.solves[k].solved_at,
        ) by {}
        lemma_find_index_hit(solve_keys(s1.solves), (pid, day), n);
        assert(is_solved_model(s1, pid, day));
    }
}

/// Law: after recording a solve, unrecording it removes a row and the
/// identifier is no longer solved on that day.
pub proof fn lemma_unrecord_after_record(s: DatabaseV, pid: Seq<char>, day: int)
    requires
        database_wf(s),
    ensures
        ({
            let s1 = record_solve_model(s, pid, day).0;
            let s2 = unrecord_solve_model(s1, pid, day).0;
            &&& unrecord_solve_model(s1, pid, day).1 == true
            &&& !is_solved_model(s2, pid, day)
        }),
{
    lemma_record_solve_same_day_twice(s, pid, day);
    let s1 = record_solve_model(s, pid, day).0;
    assert(forall|k: int|
        0 <= k < s1.solves.len() ==> solve_keys(s1.solves)[k] == (
        s1.solves[k].problem_id,
        s1.solves[k].solved_at,
        ));
    let jwit = choose|j: int|
        0 <= j < s1.solves.len() && (#[trigger] s1.solves[j].problem_id) == pid
            && s1.solves[j].solved_at == day && (forall|k: int|
            0 <= k < s1.solves.len() && k != j ==> !((#[trigger] s1.solves[k].problem_id) == pid
                && s1.solves[k].solved_at == day));
    assert forall|k: int| 0 <= k < jwit implies solve_keys(s1.solves)[k] != (pid, day) by {
        assert(!(s1.solves[k].problem_id == pid && s1.solves[k].solved_at == day));
    }
    lemma_find_index_hit(solve_keys(s1.solves), (pid, day), jwit);
    let j = find_index(solve_keys(s1.solves), (pid, day));
    assert(j == jwit);
    let s2 = unrecord_solve_model(s1, pid, day).0;
    assert(s2.solves =~= s1.solves.remove(j));
    assert forall|k: int| 0 <= k < s2.solves.len() implies solve_keys(s2.solves)[k] != (
    pid,
    day,
    ) by {
        if k < j {
            assert(s2.solves[k] == s1.solves[k]);
            assert(!(s1.solves[k].problem_id == pid && s1.solves[k].solved_at == day));
        } else {
            assert(s2.solves[k] == s1.solves[k + 1]);
            assert(!(s1.solves[k + 1].problem_id == pid && s1.solves[k + 1].solved_at == day));
        }
        assert(solve_keys(s2.solves)[k] == (s2.solves[k].problem_id, s2.solves[k].solved_at));
    }
    lemma_find_index_miss(solve_keys(s2.solves), (pid, day));
}

impl Database {
    pub open spec fn wf(&self) -> bool {
        database_wf(self@)
    }

    /// A fresh store with no rows.
    pub fn new() -> (s: Database)
        ensures
            s.wf(),
            s@.problems =~= Seq::<ProblemRecordV>::empty(),
            s@.chats =~= Seq::<ChatRecordV>::empty(),
            s@.solves =~= Seq::<SolveRecordV>::empty(),
            s@.next_problem_id == 1,
            s@.next_chat_id == 1,
            s@.next_solve_id == 1,
    {
        let s = Database {
            problems: Vec::new(),
            chats: Vec::new(),
            solves: Vec::new(),
            next_problem_id: 1,
            next_chat_id: 1,
            next_solve_id: 1,
        };
        proof {
            assert(s@.problems =~= Seq::<ProblemRecordV>::empty());
            assert(s@.chats =~= Seq::<ChatRecordV>::empty());
            assert(s@.solves =~= Seq::<SolveRecordV>::empty());
        }
        s
    }

    /// Upsert a problem by its unique identifier: the cached row for the
    /// identifier, if any, is replaced in place by a fresh row with the
    /// given creation time; the fresh row's id is returned.
    #[verifier::rlimit(50)]
    pub fn save_problem(&mut self, problem: &Problem, now: i64) -> (rowid: i64)
        requires
            old(self).wf(),
        ensures
            final(self).wf(),
            final(self)@ == save_problem_model(old(self)@, problem@, now as int).0,
            rowid as int == save_problem_model(old(self)@, problem@, now as int).1,
            rowid >= 1,
    {
        let ghost s0 = self@;
        let samples_json = encode_samples(&problem.samples);
        let found = self.find_problem_idx(problem.id.as_str());
        proof {
            lemma_find_index(problem_ids(s0.problems), problem@.id);
        }
        let ghost jf = find_index(problem_ids(s0.problems), problem@.id);
        match found {
            Some(j) => {
                let _old_row = self.problems.remove(j);
                proof {
                    assert(seq_views(self.problems@) =~= s0.problems.remove(j as int));
                }
            },
            None => {},
        }
        let ghost removed = if jf < 0 {
            s0.problems
        } else {
            s0.problems.remove(jf)
        };
        proof {
            assert(seq_views(self.problems@) == removed);
            assert(removed.skip(0) =~= removed);
        }
        let mut pos: usize = 0;
        while pos < self.problems.len() && self.problems[pos].created_at >= now
            invariant
                pos <= self.problems.len(),
                seq_views(self.problems@) == removed,
                removed.len() == self.problems.len(),
                insert_pos(removed, now as int) == pos + insert_pos(
                    removed.skip(pos as int),
                    now as int,
                ),
            decreases self.problems.len() - pos,
        {
            proof {
                assert(removed.skip(pos as int)[0] == removed[pos as int]);
                assert(removed[pos as int] == self.problems@[pos as int]@);
                assert(removed.skip(pos as int).drop_first() =~= removed.skip(pos as int + 1));
            }
            pos = pos + 1;
        }
        proof {
            if pos < self.problems.len() {
                assert(removed.skip(pos as int)[0] == removed[pos as int]);
                assert(removed[pos as int] == self.problems@[pos as int]@);
                assert(insert_pos(removed.skip(pos as int), now as int) == 0);
            } else {
                assert(removed.skip(pos as int) =~= Seq::<ProblemRecordV>::empty());
            }
            assert(insert_pos(removed, now as int) == pos as int);
        }
        let rowid = self.next_problem_id;
        let row = ProblemRecord {
            id: rowid,
            problem_id: problem.id.clone(),
            title: problem.title.clone(),
            description: problem.description.clone(),
            input_description: problem.input_description.clone(),
            output_description: problem.output_description.clone(),
            samples_json,
            time_limit: problem.time_limit.clone(),
            memory_limit: problem.memory_limit.clone(),
            created_at: now,
        };
        proof {
            assert(row@ =~= problem_row_of(problem@, rowid as int, now as int));
        }
        self.problems.insert(pos, row);
        if self.next_problem_id != i64::MAX {
            self.next_problem_id = self.next_problem_id + 1;
        }
        proof {
            assert(seq_views(self.problems@) =~= removed.insert(
                pos as int,
                problem_row_of(problem@, rowid as int, now as int),
            ));
            assert(self@ =~= save_problem_model(s0, problem@, now as int).0);
            lemma_save_problem_upsert(s0, problem@, now as int);
        }
        rowid
    }

    fn find_problem_idx(&self, problem_id: &str) -> (r: Option<usize>)
        ensures
            r matches Some(j) ==> j < self@.problems.len() && find_index(
                problem_ids(self@.problems),
                problem_id@,
            ) == j as int,
            r is None ==> find_index(problem_ids(self@.problems), problem_id@) == -1,
    {
        let ghost keys = problem_ids(self@.problems);
        let mut i: usize = 0;
        while i < self.problems.len()
            invariant
                i <= self.problems.len(),
                keys == problem_ids(self@.problems),
                keys.len() == self@.problems.len(),
                forall|k: int| 0 <= k < i ==> keys[k] != problem_id@,
            decreases self.problems.len() - i,
        {
            if str_eq(self.problems[i].problem_id.as_str(), problem_id) {
                proof {
                    lemma_find_index_hit(keys, problem_id@, i as int);
                }
                return Some(i);
            }
            i = i + 1;
        }
        proof {
            lemma_find_index_miss(keys, problem_id@);
        }
        None
    }

    /// Point lookup of a cached problem; an absent identifier yields
    /// `None`, not an error.
    pub fn get_problem(&self, problem_id: &str) -> (r: Option<ProblemRecord>)
        ensures
            r is Some <==> find_index(problem_ids(self@.problems), problem_id@) >= 0,
            r matches Some(rec) ==> rec@ == self@.problems[find_index(
                problem_ids(self@.problems),
                problem_id@,
            )],
    {
        match self.find_problem_idx(problem_id) {
            Some(j) => Some(self.problems[j].clone()),
            None => None,
        }
    }

    /// All cached problems, newest-created first (the order the store
    /// maintains).
    pub fn get_all_problems(&self) -> (r: Vec<ProblemRecord>)
        ensures
            r@.len() == self@.problems.len(),
            forall|i: int| 0 <= i < r@.len() ==> r@[i]@ == self@.problems[i],
            self.wf() ==> forall|i: int, j: int|
                0 <= i <= j < r@.len() ==> (#[trigger] r@[i]@).created_at >= (
                #[trigger] r@[j]@).created_at,
    {
        let mut r: Vec<ProblemRecord> = Vec::new();
        let mut i: usize = 0;
        while i < self.problems.len()
            invariant
                i <= self.problems.len(),
                r@.len() == i,
                forall|k: int| 0 <= k < i ==> r@[k]@ == self@.problems[k],
            decreases self.problems.len() - i,
        {
            r.push(self.problems[i].clone());
            i = i + 1;
        }
        proof {
            if self.wf() {
                assert forall|a: int, b: int| 0 <= a <= b < r@.len() implies (
                #[trigger] r@[a]@).created_at >= (#[trigger] r@[b]@).created_at by {
                    assert(r@[a]@ == self@.problems[a]);
                    assert(r@[b]@ == self@.problems[b]);
                }
            }
        }
        r
    }

    fn find_chat_idx(&self, problem_id: &str) -> (r: Option<usize>)
        ensures
            r matches Some(j) ==> j < self@.chats.len() && find_index(
                chat_ids(self@.chats),
                problem_id@,
            ) == j as int,
            r is None ==> find_index(chat_ids(self@.chats), problem_id@) == -1,
    {
        let ghost keys = chat_ids(self@.chats);
        let mut i: usize = 0;
        while i < self.chats.len()
            invariant
                i <= self.chats.len(),
                keys == chat_ids(self@.chats),
                keys.len() == self@.chats.len(),
                forall|k: int| 0 <= k < i ==> keys[k] != problem_id@,
            decreases self.chats.len() - i,
        {
            if str_eq(self.chats[i].problem_id.as_str(), problem_id) {
                proof {
                    lemma_find_index_hit(keys, problem_id@, i as int);
                }
                return Some(i);
            }
            i = i + 1;
        }
        proof {
            lemma_find_index_miss(keys, problem_id@);
        }
        None
    }

    /// Save a chat transcript for a problem: update in place when a row
    /// exists (bumping only the update time), else insert a fresh row;
    /// the affected row's id is returned.
    #[verifier::rlimit(50)]
    pub fn save_chat(&mut self, problem_id: &str, messages_json: &str, now: i64) -> (rowid: i64)
        requires
            old(self).wf(),
        ensures
            final(self).wf(),
            final(self)@ == save_chat_model(
                old(self)@,
                problem_id@,
                messages_json@,
                now as int,
            ).0,
            rowid as int == save_chat_model(old(self)@, problem_id@, messages_json@, now as int).1,
            rowid >= 1,
    {
        let ghost s0 = self@;
        let found = self.find_chat_idx(problem_id);
        proof {
            lemma_find_index(chat_ids(s0.chats), problem_id@);
            assert(forall|k: int|
                0 <= k < s0.chats.len() ==> chat_ids(s0.chats)[k] == s0.chats[k].problem_id);
        }
        match found {
            Some(j) => {
                let mut row = self.chats.remove(j);
                let rowid = row.id;
                row.messages_json = messages_json.to_owned();
                row.updated_at = now;
                self.chats.insert(j, row);
                proof {
                    let model = save_chat_model(s0, problem_id@, messages_json@, now as int);
                    assert(seq_views(self.chats@) =~= s0.chats.update(j as int, row@));
                    assert(self@ =~= model.0);
                    assert forall|i1: int, j1: int|
                        0 <= i1 < j1 < self@.chats.len() implies self@.chats[i1].problem_id
                        != self@.chats[j1].problem_id by {
                        assert(s0.chats[i1].problem_id != s0.chats[j1].problem_id);
                    }
                    assert(row@.id == s0.chats[j as int].id);
                }
                rowid
            },
            None => {
                let rowid = self.next_chat_id;
                let row = ChatRecord {
                    id: rowid,
                    problem_id: problem_id.to_owned(),
                    messages_json: messages_json.to_owned(),
                    created_at: now,
                    updated_at: now,
                };
                self.chats.push(row);
                if self.next_chat_id != i64::MAX {
                    self.next_chat_id = self.next_chat_id + 1;
                }
                proof {
                    let model = save_chat_model(s0, problem_id@, messages_json@, now as int);
                    assert(seq_views(self.chats@) =~= s0.chats.push(
                        ChatRecordV {
                            id: rowid as int,
                            problem_id: problem_id@,
                            messages_json: messages_json@,
                            created_at: now as int,
                            updated_at: now as int,
                        },
                    ));
                    assert(self@ =~= model.0);
                    assert forall|i1: int, j1: int|
                        0 <= i1 < j1 < self@.chats.len() implies self@.chats[i1].problem_id
                        != self@.chats[j1].problem_id by {
                        if j1 < s0.chats.len() {
                            assert(s0.chats[i1].problem_id != s0.chats[j1].problem_id);
                        } else {
                            assert(self@.chats[i1] == s0.chats[i1]);
                            assert(chat_ids(s0.chats)[i1] != problem_id@);
                        }
                    }
                }
                rowid
            },
        }
    }

    /// Point lookup of the chat transcript for a problem.
    pub fn get_chat_by_problem(&self, problem_id: &str) -> (r: Option<ChatRecord>)
        ensures
            r is Some <==> find_index(chat_ids(self@.chats), problem_id@) >= 0,
            r matches Some(rec) ==> rec@ == self@.chats[find_index(
                chat_ids(self@.chats),
                problem_id@,
            )],
    {
        match self.find_chat_idx(problem_id) {
            Some(j) => Some(self.chats[j].clone()),
            None => None,
        }
    }

    /// Remove a problem's cache row and its chat row, each when present.
    /// Afterwards neither table holds a row for the identifier.
    #[verifier::rlimit(50)]
    pub fn delete_problem(&mut self, problem_id: &str)
        requires
            old(self).wf(),
        ensures
            final(self).wf(),
            final(self)@ == delete_problem_model(old(self)@, problem_id@),
            forall|k: int|
                0 <= k < final(self)@.problems.len() ==> final(self)@.problems[k].problem_id
                    != problem_id@,
            forall|k: int|
                0 <= k < final(self)@.chats.len() ==> final(self)@.chats[k].problem_id
                    != problem_id@,
    {
        let ghost s0 = self@;
        proof {
            lemma_find_index(problem_ids(s0.problems), problem_id@);
            lemma_find_index(chat_ids(s0.chats), problem_id@);
            assert(forall|k: int|
                0 <= k < s0.problems.len() ==> problem_ids(s0.problems)[k]
                    == s0.problems[k].problem_id);
            assert(forall|k: int|
                0 <= k < s0.chats.len() ==> chat_ids(s0.chats)[k] == s0.chats[k].problem_id);
        }
        let found_p = self.find_problem_idx(problem_id);
        match found_p {
            Some(j) => {
                let _row = self.problems.remove(j);
                proof {
                    assert(seq_views(self.problems@) =~= s0.problems.remove(j as int));
                }
            },
            None => {},
        }
        let found_c = self.find_chat_idx(problem_id);
        proof {
            assert(chat_ids(self@.chats) == chat_ids(s0.chats));
        }
        match found_c {
            Some(j) => {
                let _row = self.chats.remove(j);
                proof {
                    assert(seq_views(self.chats@) =~= s0.chats.remove(j as int));
                }
            },
            None => {},
        }
        proof {
            let jp = find_index(problem_ids(s0.problems), problem_id@);
            let jc = find_index(chat_ids(s0.chats), problem_id@);
            assert(self@ =~= delete_problem_model(s0, problem_id@));
            if jp >= 0 {
                assert(s0.problems[jp].problem_id == problem_id@);
                assert forall|k: int|
                    0 <= k < self@.problems.len() implies self@.problems[k].problem_id
                    != problem_id@ by {
                    if k < jp {
                        assert(self@.problems[k] == s0.problems[k]);
                        assert(s0.problems[k].problem_id != s0.problems[jp].problem_id);
                    } else {
                        assert(self@.problems[k] == s0.problems[k + 1]);
                        assert(s0.problems[jp].problem_id != s0.problems[k + 1].problem_id);
                    }
                }
                assert(problems_wf(self@.problems)) by {
                    assert forall|i1: int, j1: int|
                        0 <= i1 < j1 < self@.problems.len() implies self@.problems[i1].problem_id
                        != self@.problems[j1].problem_id by {}
                    assert forall|i1: int, j1: int|
                        0 <= i1 <= j1 < self@.problems.len() implies self@.problems[i1].created_at
                        >= self@.problems[j1].created_at by {}
                    assert forall|i1: int|
                        0 <= i1 < self@.problems.len() implies #[trigger] self@.problems[i1].id
                        >= 1 by {}
                }
            } else {
                assert forall|k: int|
                    0 <= k < self@.problems.len() implies self@.problems[k].problem_id
                    != problem_id@ by {
                    assert(self@.problems[k] == s0.problems[k]);
                    assert(problem_ids(s0.problems)[k] != problem_id@);
                }
            }
            if jc >= 0 {
                assert(s0.chats[jc].problem_id == problem_id@);
                assert forall|k: int|
                    0 <= k < self@.chats.len() implies self@.chats[k].problem_id != problem_id@ by {
                    if k < jc {
                        assert(self@.chats[k] == s0.chats[k]);
                        assert(s0.chats[k].problem_id != s0.chats[jc].problem_id);
                    } else {
                        assert(self@.chats[k] == s0.chats[k + 1]);
                        assert(s0.chats[jc].problem_id != s0.chats[k + 1].problem_id);
                    }
                }
                assert(chats_wf(self@.chats)) by {
                    assert forall|i1: int, j1: int|
                        0 <= i1 < j1 < self@.chats.len() implies self@.chats[i1].problem_id
                        != self@.chats[j1].problem_id by {}
                    assert forall|i1: int|
                        0 <= i1 < self@.chats.len() implies #[trigger] self@.chats[i1].id >= 1 by {}
                }
            } else {
                assert forall|k: int|
                    0 <= k < self@.chats.len() implies self@.chats[k].problem_id != problem_id@ by {
                    assert(self@.chats[k] == s0.chats[k]);
                    assert(chat_ids(s0.chats)[k] != problem_id@);
                }
            }
        }
    }

    fn find_solve_idx(&self, problem_id: &str, day: i64) -> (r: Option<usize>)
        ensures
            r matches Some(j) ==> j < self@.solves.len() && find_index(
                solve_keys(self@.solves),
                (problem_id@, day as int),
            ) == j as int,
            r is None ==> find_index(solve_keys(self@.solves), (problem_id@, day as int)) == -1,
    {
        let ghost keys = solve_keys(self@.solves);
        let mut i: usize = 0;
        while i < self.solves.len()
            invariant
                i <= self.solves.len(),
                keys == solve_keys(self@.solves),
                keys.len() == self@.solves.len(),
                forall|k: int| 0 <= k < i ==> keys[k] != (problem_id@, day as int),
            decreases self.solves.len() - i,
        {
            if self.solves[i].solved_at == day && str_eq(
                self.solves[i].problem_id.as_str(),
                problem_id,
            ) {
                proof {
                    assert(keys[i as int] == (problem_id@, day as int));
                    lemma_find_index_hit(keys, (problem_id@, day as int), i as int);
                }
                return Some(i);
            }
            proof {
                assert(keys[i as int] == (self@.solves[i as int].problem_id, self@.solves[i as int].solved_at));
            }
            i = i + 1;
        }
        proof {
            lemma_find_index_miss(keys, (problem_id@, day as int));
        }
        None
    }

    /// Record a solve for today: a no-op returning 0 when one is already
    /// recorded for the identifier today, else a fresh ledger row whose
    /// id is returned.
    pub fn record_solve(&mut self, problem_id: &str, today: i64) -> (rowid: i64)
        requires
            old(self).wf(),
        ensures
            final(self).wf(),
            final(self)@ == record_solve_model(old(self)@, problem_id@, today as int).0,
            rowid as int == record_solve_model(old(self)@, problem_id@, today as int).1,
            rowid == 0 <==> is_solved_model(old(self)@, problem_id@, today as int),
    {
        let ghost s0 = self@;
        let found = self.find_solve_idx(problem_id, today);
        proof {
            lemma_find_index(solve_keys(s0.solves), (problem_id@, today as int));
            assert(forall|k: int|
                0 <= k < s0.solves.len() ==> solve_keys(s0.solves)[k] == (
                s0.solves[k].problem_id,
                s0.solves[k].solved_at,
                ));
        }
        match found {
            Some(_) => {
                proof {
                    assert(self@ =~= record_solve_model(s0, problem_id@, today as int).0);
                }
                0
            },
            None => {
                let rowid = self.next_solve_id;
                let row = SolveRecord {
                    id: rowid,
                    problem_id: problem_id.to_owned(),
                    solved_at: today,
                };
                self.solves.push(row);
                if self.next_solve_id != i64::MAX {
                    self.next_solve_id = self.next_solve_id + 1;
                }
                proof {
                    assert(seq_views(self.solves@) =~= s0.solves.push(
                        SolveRecordV {
                            id: rowid as int,
                            problem_id: problem_id@,
                            solved_at: today as int,
                        },
                    ));
                    assert(self@ =~= record_solve_model(s0, problem_id@, today as int).0);
                    assert forall|i1: int, j1: int|
                        0 <= i1 < j1 < self@.solves.len() implies !(self@.solves[i1].problem_id
                        == self@.solves[j1].problem_id && self@.solves[i1].solved_at
                        == self@.solves[j1].solved_at) by {
                        if j1 < s0.solves.len() {
                            assert(!(s0.solves[i1].problem_id == s0.solves[j1].problem_id
                                && s0.solves[i1].solved_at == s0.solves[j1].solved_at));
                        } else {
                            assert(self@.solves[i1] == s0.solves[i1]);
                            assert(solve_keys(s0.solves)[i1] != (problem_id@, today as int));
                        }
                    }
                }
                rowid
            },
        }
    }

    /// Delete today's ledger row for the identifier when present; the
    /// result says whether a row was removed.
    pub fn unrecord_solve(&mut self, problem_id: &str, today: i64) -> (removed: bool)
        requires
            old(self).wf(),
        ensures
            final(self).wf(),
            final(self)@ == unrecord_solve_model(old(self)@, problem_id@, today as int).0,
            removed == unrecord_solve_model(old(self)@, problem_id@, today as int).1,
            removed == is_solved_model(old(self)@, problem_id@, today as int),
    {
        let ghost s0 = self@;
        let found = self.find_solve_idx(problem_id, today);
        match found {
            Some(j) => {
                let _row = self.solves.remove(j);
                proof {
                    assert(seq_views(self.solves@) =~= s0.solves.remove(j as int));
                    assert(self@ =~= unrecord_solve_model(s0, problem_id@, today as int).0);
                    assert forall|i1: int, j1: int|
                        0 <= i1 < j1 < self@.solves.len() implies !(self@.solves[i1].problem_id
                        == self@.solves[j1].problem_id && self@.solves[i1].solved_at
                        == self@.solves[j1].solved_at) by {
                        let a = if i1 < j { i1 } else { i1 + 1 };
                        let b = if j1 < j { j1 } else { j1 + 1 };
                        assert(self@.solves[i1] == s0.solves[a]);
                        assert(self@.solves[j1] == s0.solves[b]);
                        assert(!(s0.solves[a].problem_id == s0.solves[b].problem_id
                            && s0.solves[a].solved_at == s0.solves[b].solved_at));
                    }
                    assert forall|i1: int|
                        0 <= i1 < self@.solves.len() implies #[trigger] self@.solves[i1].id
                        >= 1 by {
                        let a = if i1 < j { i1 } else { i1 + 1 };
                        assert(self@.solves[i1] == s0.solves[a]);
                    }
                }
                true
            },
            None => {
                proof {
                    assert(self@ =~= unrecord_solve_model(s0, problem_id@, today as int).0);
                }
                false
            },
        }
    }

    /// Whether the ledger holds a row for the identifier and today.
    pub fn is_solved_today(&self, problem_id: &str, today: i64) -> (r: bool)
        ensures
            r == is_solved_model(self@, problem_id@, today as int),
    {
        match self.find_solve_idx(problem_id, today) {
            Some(_) => true,
            None => false,
        }
    }

    /// Daily activity inside the window: one entry per calendar day with
    /// ledger rows less than `days` days before today, in ascending day
    /// order, carrying that day's row count and its intensity level.
    /// Rows older than the window are excluded.
    #[verifier::rlimit(80)]
    pub fn get_activity_data(&self, days: i64, today: i64) -> (r: Vec<ActivityData>)
        ensures
            forall|i: int|
                0 <= i < r@.len() ==> in_window(
                    (#[trigger] r@[i]@).date,
                    today as int,
                    days as int,
                ),
            forall|i: int|
                0 <= i < r@.len() ==> (#[trigger] r@[i]@).count == count_on_day(
                    self@.solves,
                    r@[i]@.date,
                ) && r@[i]@.count >= 1 && r@[i]@.level == level_of(r@[i]@.count),
            forall|i: int, j: int| 0 <= i < j < r@.len() ==> (r@[i]@).date < (r@[j]@).date,
            forall|k: int|
                0 <= k < self@.solves.len() && in_window(
                    (#[trigger] self@.solves[k]).solved_at,
                    today as int,
                    days as int,
                ) ==> has_date(seq_views(r@), self@.solves[k].solved_at),
    {
        let ghost solves = self@.solves;
        let mut out: Vec<ActivityData> = Vec::new();
        let mut idx: usize = 0;
        proof {
            assert(solves.take(0) =~= Seq::<SolveRecordV>::empty());
        }
        while idx < self.solves.len()
            invariant
                idx <= self.solves.len(),
                solves == self@.solves,
                solves.len() == self.solves.len(),
                forall|i: int|
                    0 <= i < out@.len() ==> in_window(
                        (#[trigger] out@[i]@).date,
                        today as int,
                        days as int,
                    ),
                forall|i: int|
                    0 <= i < out@.len() ==> (#[trigger] out@[i]@).count == count_on_day(
                        solves.take(idx as int),
                        out@[i]@.date,
                    ) && out@[i]@.count >= 1 && out@[i]@.level == level_of(out@[i]@.count),
                forall|i: int, j: int| 0 <= i < j < out@.len() ==> (out@[i]@).date < (out@[j]@).date,
                forall|k: int|
                    0 <= k < idx && in_window(
                        (#[trigger] solves[k]).solved_at,
                        today as int,
                        days as int,
                    ) ==> has_date(seq_views(out@), solves[k].solved_at),
            decreases self.solves.len() - idx,
        {
            let d = self.solves[idx].solved_at;
            let ghost old_out = out@;
            proof {
                assert(solves[idx as int] == self.solves@[idx as int]@);
                assert(solves[idx as int].solved_at == d as int);
                assert(solves.take(idx as int + 1) =~= solves.take(idx as int).push(
                    solves[idx as int],
                ));
            }
            if in_window_exec(d, today, days) {
                let mut j: usize = 0;
                while j < out.len() && out[j].date < d
                    invariant
                        j <= out.len(),
                        out@ == old_out,
                        forall|k: int| 0 <= k < j ==> (#[trigger] out@[k]@).date < d as int,
                    decreases out.len() - j,
                {
                    j = j + 1;
                }
                proof {
                    assert forall|k: int| j <= k < out@.len() implies (#[trigger] out@[k]@).date
                        >= d as int by {
                        if k > j {
                            assert((out@[j as int]@).date < (out@[k]@).date);
                        }
                    }
                }
                if j < out.len() && out[j].date == d {
                    let mut e = out.remove(j);
                    proof {
                        lemma_count_on_day_bounds(solves.take(idx as int), d as int);
                        assert(e@.count <= idx);
                    }
                    e.count = e.count + 1;
                    let lv = level_for(e.count);
                    e.level = lv;
                    out.insert(j, e);
                    proof {
                        assert(out@ =~= old_out.update(j as int, e));
                        assert forall|i: int| 0 <= i < out@.len() implies (#[trigger] out@[i]@).count
                            == count_on_day(solves.take(idx as int + 1), out@[i]@.date)
                            && out@[i]@.count >= 1 && out@[i]@.level == level_of(
                            out@[i]@.count,
                        ) by {
                            lemma_count_on_day_push(
                                solves.take(idx as int),
                                solves[idx as int],
                                (out@[i]@).date,
                            );
                            if i != j {
                                assert(out@[i] == old_out[i]);
                                if i < j {
                                    assert((old_out[i]@).date < d as int);
                                } else {
                                    assert((old_out[i]@).date >= d as int);
                                    assert((old_out[i]@).date != d as int);
                                }
                            } else {
                                assert(out@[j as int] == e);
                                assert(e@.date == d as int);
                                assert(e@.count == (old_out[j as int]@).count + 1);
                            }
                        }
                        assert forall|k: int|
                            0 <= k < idx + 1 && in_window(
                                (#[trigger] solves[k]).solved_at,
                                today as int,
                                days as int,
                            ) implies has_date(seq_views(out@), solves[k].solved_at) by {
                            if k < idx {
                                assert(has_date(seq_views(old_out), solves[k].solved_at));
                                let w = choose|i: int|
                                    0 <= i < seq_views(old_out).len() && (#[trigger] seq_views(
                                        old_out,
                                    )[i]).date == solves[k].solved_at;
                                assert((seq_views(out@)[w]).date == (seq_views(old_out)[w]).date);
                            } else {
                                assert((seq_views(out@)[j as int]).date == d as int);
                            }
                        }
                    }
                } else {
                    proof {
                        if count_on_day(solves.take(idx as int), d as int) > 0 {
                            lemma_count_on_day_positive(solves.take(idx as int), d as int);
                            let k = choose|k: int|
                                0 <= k < solves.take(idx as int).len() && (#[trigger] solves.take(
                                    idx as int,
                                )[k]).solved_at == d as int;
                            assert(solves[k].solved_at == d as int);
                            assert(in_window(solves[k].solved_at, today as int, days as int));
                            assert(has_date(seq_views(old_out), d as int));
                            let w = choose|i: int|
                                0 <= i < seq_views(old_out).len() && (#[trigger] seq_views(
                                    old_out,
                                )[i]).date == d as int;
                            assert((old_out[w]@).date == d as int);
                            if w < j {
                                assert((old_out[w]@).date < d as int);
                            } else {
                                assert(j < old_out.len());
                                assert((old_out[j as int]@).date >= d as int);
                                assert((old_out[j as int]@).date != d as int);
                                if w > j {
                                    assert((old_out[j as int]@).date < (old_out[w]@).date);
                                }
                                assert((old_out[w]@).date > d as int);
                            }
                            assert(false);
                        }
                        lemma_count_on_day_bounds(solves.take(idx as int), d as int);
                        assert(count_on_day(solves.take(idx as int), d as int) == 0);
                    }
                    let lv = level_for(1);
                    let e = ActivityData { date: d, count: 1, level: lv };
                    out.insert(j, e);
                    proof {
                        assert(out@ =~= old_out.insert(j as int, e));
                        assert forall|i: int| 0 <= i < out@.len() implies (out@[i] == if i < j {
                            old_out[i]
                        } else if i == j {
                            e
                        } else {
                            old_out[i - 1]
                        }) by {}
                        assert forall|i: int| 0 <= i < out@.len() implies (#[trigger] out@[i]@).count
                            == count_on_day(solves.take(idx as int + 1), out@[i]@.date)
                            && out@[i]@.count >= 1 && out@[i]@.level == level_of(
                            out@[i]@.count,
                        ) by {
                            lemma_count_on_day_push(
                                solves.take(idx as int),
                                solves[idx as int],
                                (out@[i]@).date,
                            );
                            if i < j {
                                assert(out@[i] == old_out[i]);
                                assert((old_out[i]@).date < d as int);
                            } else if i == j {
                                assert(out@[i] == e);
                                assert(e@.count == 1 && e@.date == d as int);
                                assert(count_on_day(solves.take(idx as int), d as int) == 0);
                            } else {
                                assert(out@[i] == old_out[i - 1]);
                                assert((old_out[i - 1]@).date >= d as int);
                                assert((old_out[i - 1]@).date != d as int);
                            }
                        }
                        assert forall|i1: int, j1: int|
                            0 <= i1 < j1 < out@.len() implies (out@[i1]@).date
                            < (out@[j1]@).date by {
                            if j1 < j {
                            } else if i1 < j && j1 == j {
                                assert((old_out[i1]@).date < d as int);
                            } else if i1 < j {
                                assert((old_out[j1 - 1]@).date >= d as int);
                                assert((old_out[j1 - 1]@).date != d as int);
                            } else if i1 == j {
                                assert((old_out[j1 - 1]@).date >= d as int);
                                assert((old_out[j1 - 1]@).date != d as int);
                            } else {
                            }
                        }
                        assert forall|k: int|
                            0 <= k < idx + 1 && in_window(
                                (#[trigger] solves[k]).solved_at,
                                today as int,
                                days as int,
                            ) implies has_date(seq_views(out@), solves[k].solved_at) by {
                            if k < idx {
                                assert(has_date(seq_views(old_out), solves[k].solved_at));
                                let w = choose|i: int|
                                    0 <= i < seq_views(old_out).len() && (#[trigger] seq_views(
                                        old_out,
                                    )[i]).date == solves[k].solved_at;
                                if w < j {
                                    assert((seq_views(out@)[w]).date == solves[k].solved_at);
                                } else {
                                    assert(out@[w + 1] == old_out[w]);
                                    assert((seq_views(out@)[w + 1]).date == solves[k].solved_at);
                                }
                            } else {
                                assert((seq_views(out@)[j as int]).date == d as int);
                            }
                        }
                    }
                }
            } else {
                proof {
                    assert forall|i: int| 0 <= i < out@.len() implies (#[trigger] out@[i]@).count
                        == count_on_day(solves.take(idx as int + 1), out@[i]@.date) by {
                        lemma_count_on_day_push(
                            solves.take(idx as int),
                            solves[idx as int],
                            (out@[i]@).date,
                        );
                        assert(in_window((out@[i]@).date, today as int, days as int));
                        assert(!in_window(d as int, today as int, days as int));
                        assert((out@[i]@).date != d as int);
                    }
                }
            }
            idx = idx + 1;
        }
        proof {
            assert(solves.take(solves.len() as int) =~= solves);
        }
        out
    }
}

/// The window test over machine integers, free of overflow.
fn in_window_exec(day: i64, today: i64, days: i64) -> (r: bool)
    ensures
        r == in_window(day as int, today as int, days as int),
{
    (today as i128) - (day as i128) < (days as i128)
}

/// The fixed intensity thresholds: 0 solves map to level 0, 1 or 2 to 1,
/// 3 to 5 to 2, 6 to 10 to 3, and anything larger to 4.
pub fn level_for(count: usize) -> (r: u8)
    ensures
        r as int == level_of(count as int),
{
    if count == 0 {
        0
    } else if count <= 2 {
        1
    } else if count <= 5 {
        2
    } else if count <= 10 {
        3
    } else {
        4
    }
}

} // verus!
