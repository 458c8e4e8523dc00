//! The records that the session store lists, and the queries over them:
//! filtering by server, transport and tags, and adding or removing tags.

use vstd::prelude::*;
use crate::hub::opt_string_view;
use crate::sink::line_views;

verus! {

/// What the store lists of one recorded session.
#[derive(Clone, Debug)]
pub struct SessionInfo {
    pub id: String,
    pub name: String,
    pub started_at: u64,
    pub ended_at: Option<u64>,
    pub message_count: usize,
    pub duration_ms: Option<u64>,
    pub transport: String,
    /// The server's name, for telling servers apart.
    pub server_name: Option<String>,
    /// The user's tags, for filtering.
    pub tags: Vec<String>,
}

pub struct SessionInfoView {
    pub id: Seq<char>,
    pub name: Seq<char>,
    pub started_at: u64,
    pub ended_at: Option<u64>,
    pub message_count: usize,
    pub duration_ms: Option<u64>,
    pub transport: Seq<char>,
    pub server_name: Option<Seq<char>>,
    pub tags: Seq<Seq<char>>,
}

impl View for SessionInfo {
    type V = SessionInfoView;

    open spec fn view(&self) -> SessionInfoView {
        SessionInfoView {
            id: self.id@,
            name: self.name@,
            started_at: self.started_at,
            ended_at: self.ended_at,
            message_count: self.message_count,
            duration_ms: self.duration_ms,
            transport: self.transport@,
            server_name: opt_string_view(self.server_name),
            tags: line_views(self.tags@),
        }
    }
}

/// The size of the store.
#[derive(Clone, Copy, Debug)]
pub struct StorageStats {
    pub session_count: usize,
    pub size_bytes: u64,
}

/// What the dashboard asks to be shown of one session.
#[derive(Debug)]
pub struct SessionMetadataResponse {
    pub id: String,
    pub name: String,
    pub started_at: u64,
    pub ended_at: Option<u64>,
    pub transport: String,
    pub server_name: Option<String>,
    pub server_version: Option<String>,
    pub server_command: Option<String>,
    pub connection_type: Option<String>,
    pub tags: Vec<String>,
    pub message_count: usize,
    pub duration_ms: Option<u64>,
}

/// Which sessions a listing keeps; every part left empty keeps all.
#[derive(Clone, Debug)]
pub struct SessionFilter {
    /// Only sessions of this server.
    pub server_name: Option<String>,
    /// Only sessions that carry all of these tags.
    pub tags: Vec<String>,
    /// Only sessions over this transport.
    pub transport: Option<String>,
}

pub struct SessionFilterView {
    pub server_name: Option<Seq<char>>,
    pub tags: Seq<Seq<char>>,
    pub transport: Option<Seq<char>>,
}

impl View for SessionFilter {
    type V = SessionFilterView;

    open spec fn view(&self) -> SessionFilterView {
        SessionFilterView {
            server_name: opt_string_view(self.server_name),
            tags: line_views(self.tags@),
            transport: opt_string_view(self.transport),
        }
    }
}

impl Default for SessionFilter {
    fn default() -> (r: SessionFilter)
        ensures
            r@.server_name is None,
            r@.tags.len() == 0,
            r@.transport is None,
    {
        SessionFilter { server_name: None, tags: Vec::new(), transport: None }
    }
}

/// Whether a session passes the filter: the same server where one is asked
/// for, the same transport where one is asked for, and every tag asked for.
pub open spec fn accepts(f: SessionFilterView, s: SessionInfoView) -> bool {
    &&& (f.server_name matches Some(n) ==> s.server_name == Some(n))
    &&& (f.transport matches Some(t) ==> s.transport == t)
    &&& forall|k: int| 0 <= k < f.tags.len() ==> s.tags.contains(#[trigger] f.tags[k])
}

pub fn contains_line(v: &Vec<String>, x: &String) -> (r: bool)
    ensures
        r == line_views(v@).contains(x@),
{
    let mut i: usize = 0;
    while i < v.len()
        invariant
            0 <= i <= v@.len(),
            forall|k: int| 0 <= k < i ==> v@[k]@ != x@,
        decreases v@.len() - i,
    {
        if v[i] == *x {
            assert(line_views(v@)[i as int] == x@);
            return true;
        }
        i = i + 1;
    }
    assert(!line_views(v@).contains(x@)) by {
        if line_views(v@).contains(x@) {
            let k = choose|k: int| 0 <= k < line_views(v@).len() && line_views(v@)[k] == x@;
            assert(v@[k]@ == x@);
        }
    }
    false
}

pub fn copy_lines(v: &Vec<String>) -> (r: Vec<String>)
    ensures
        line_views(r@) == line_views(v@),
{
    let mut r: Vec<String> = Vec::new();
    let mut i: usize = 0;
    while i < v.len()
        invariant
            0 <= i <= v@.len(),
            r@.len() == i,
            forall|k: int| 0 <= k < i ==> #[trigger] r@[k]@ == v@[k]@,
        decreases v@.len() - i,
    {
        r.push(v[i].clone());
        i = i + 1;
    }
    assert(line_views(r@) =~= line_views(v@));
    r
}

fn copy_opt(o: &Option<String>) -> (r: Option<String>)
    ensures
        opt_string_view(r) == opt_string_view(*o),
{
    match o {
        Some(s) => Some(s.clone()),
        None => None,
    }
}

impl SessionInfo {
    /// A copy of the record.
    pub fn duplicate(&self) -> (r: SessionInfo)
        ensures
            r@ == self@,
    {
        SessionInfo {
            id: self.id.clone(),
            name: self.name.clone(),
            started_at: self.started_at,
            ended_at: self.ended_at,
            message_count: self.message_count,
            duration_ms: self.duration_ms,
            transport: self.transport.clone(),
            server_name: copy_opt(&self.server_name),
            tags: copy_lines(&self.tags),
        }
    }
}

pub open spec fn info_views(v: Seq<SessionInfo>) -> Seq<SessionInfoView> {
    v.map_values(|s: SessionInfo| s@)
}

impl SessionFilter {
    /// Whether the session passes this filter (see `accepts`).
    pub fn matches(&self, s: &SessionInfo) -> (r: bool)
        ensures
            r == accepts(self@, s@),
    {
        match &self.server_name {
            Some(n) => match &s.server_name {
                Some(m) => if !(*m == *n) {
                    return false;
                },
                None => return false,
            },
            None => {},
        }
        match &self.transport {
            Some(t) => if !(s.transport == *t) {
                return false;
            },
            None => {},
        }
        let mut i: usize = 0;
        while i < self.tags.len()
            invariant
                0 <= i <= self.tags@.len(),
                forall|k: int|
                    0 <= k < i ==> line_views(s.tags@).contains(#[trigger] line_views(self.tags@)[k]),
            decreases self.tags@.len() - i,
        {
            if !contains_line(&s.tags, &self.tags[i]) {
                assert(!line_views(s.tags@).contains(line_views(self.tags@)[i as int]));
                assert(self@.tags[i as int] == line_views(self.tags@)[i as int]);
                assert(!s@.tags.contains(self@.tags[i as int]));
                return false;
            }
            i = i + 1;
        }
        true
    }
}

/// The sessions that pass the filter, in the order given.
pub fn filter_sessions(sessions: &Vec<SessionInfo>, filter: &SessionFilter) -> (r: Vec<SessionInfo>)
    ensures
        info_views(r@) == info_views(sessions@).filter(|s: SessionInfoView| accepts(filter@, s)),
{
    let ghost keep = |s: SessionInfoView| accepts(filter@, s);
    let mut r: Vec<SessionInfo> = Vec::new();
    let mut i: usize = 0;
    assert(info_views(sessions@).subrange(0, 0) =~= Seq::<SessionInfoView>::empty());
    while i < sessions.len()
        invariant
            0 <= i <= sessions@.len(),
            keep == (|s: SessionInfoView| accepts(filter@, s)),
            info_views(r@) == info_views(sessions@).subrange(0, i as int).filter(keep),
        decreases sessions@.len() - i,
    {
        let ghost upto = info_views(sessions@).subrange(0, i + 1);
        reveal(Seq::filter);
        assert(upto.drop_last() =~= info_views(sessions@).subrange(0, i as int));
        assert(upto.last() == sessions@[i as int]@);
        if filter.matches(&sessions[i]) {
            let ghost prior = r@;
            r.push(sessions[i].duplicate());
            assert(info_views(r@) =~= info_views(prior).push(sessions@[i as int]@));
        }
        i = i + 1;
    }
    assert(info_views(sessions@).subrange(0, sessions@.len() as int) =~= info_views(sessions@));
    r
}

/// The tags after adding `added` in order, each one only where it is not there yet.
pub open spec fn with_tags(tags: Seq<Seq<char>>, added: Seq<Seq<char>>) -> Seq<Seq<char>>
    decreases added.len(),
{
    if added.len() == 0 {
        tags
    } else {
        let base = with_tags(tags, added.drop_last());
        if base.contains(added.last()) {
            base
        } else {
            base.push(added.last())
        }
    }
}

/// Adds tags to a list, leaving out those it already has.
pub fn add_tags(tags: &mut Vec<String>, added: Vec<String>)
    ensures
        line_views(final(tags)@) == with_tags(line_views(old(tags)@), line_views(added@)),
{
    let ghost start = line_views(tags@);
    let mut i: usize = 0;
    assert(line_views(added@).subrange(0, 0) =~= Seq::<Seq<char>>::empty());
    while i < added.len()
        invariant
            0 <= i <= added@.len(),
            line_views(tags@) == with_tags(start, line_views(added@).subrange(0, i as int)),
        decreases added@.len() - i,
    {
        let ghost upto = line_views(added@).subrange(0, i + 1);
        assert(upto.drop_last() =~= line_views(added@).subrange(0, i as int));
        assert(upto.last() == added@[i as int]@);
        if !contains_line(tags, &added[i]) {
            let ghost prior = tags@;
            tags.push(added[i].clone());
            assert(line_views(tags@) =~= line_views(prior).push(added@[i as int]@));
        }
        i = i + 1;
    }
    assert(line_views(added@).subrange(0, added@.len() as int) =~= line_views(added@));
}

/// Removes from a list every tag that `removed` holds, keeping the others in order.
pub fn remove_tags(tags: &mut Vec<String>, removed: &Vec<String>)
    ensures
        line_views(final(tags)@) == line_views(old(tags)@).filter(
            |t: Seq<char>| !line_views(removed@).contains(t),
        ),
{
    let ghost keep = |t: Seq<char>| !line_views(removed@).contains(t);
    let ghost start = line_views(tags@);
    let mut kept: Vec<String> = Vec::new();
    let mut i: usize = 0;
    assert(start.subrange(0, 0) =~= Seq::<Seq<char>>::empty());
    while i < tags.len()
        invariant
            0 <= i <= tags@.len(),
            start == line_views(tags@),
            keep == (|t: Seq<char>| !line_views(removed@).contains(t)),
            line_views(kept@) == start.subrange(0, i as int).filter(keep),
        decreases tags@.len() - i,
    {
        let ghost upto = start.subrange(0, i + 1);
        reveal(Seq::filter);
        assert(upto.drop_last() =~= start.subrange(0, i as int));
        assert(upto.last() == tags@[i as int]@);
        if !contains_line(removed, &tags[i]) {
            let ghost prior = kept@;
            kept.push(tags[i].clone());
            assert(line_views(kept@) =~= line_views(prior).push(tags@[i as int]@));
        }
        i = i + 1;
    }
    assert(start.subrange(0, start.len() as int) =~= start);
    *tags = kept;
}

/// The records in order, each id kept only at its first record.
pub open spec fn first_of_ids(s: Seq<SessionInfoView>) -> Seq<SessionInfoView>
    decreases s.len(),
{
    if s.len() == 0 {
        s
    } else if exists|j: int| 0 <= j < s.len() - 1 && #[trigger] s[j].id == s.last().id {
        first_of_ids(s.drop_last())
    } else {
        first_of_ids(s.drop_last()).push(s.last())
    }
}

fn seen_before(sessions: &Vec<SessionInfo>, i: usize) -> (r: bool)
    requires
        i < sessions@.len(),
    ensures
        r == exists|j: int| 0 <= j < i && #[trigger] sessions@[j]@.id == sessions@[i as int]@.id,
{
    let mut k: usize = 0;
    while k < i
        invariant
            0 <= k <= i < sessions@.len(),
            forall|j: int| 0 <= j < k ==> #[trigger] sessions@[j]@.id != sessions@[i as int]@.id,
        decreases i - k,
    {
        if sessions[k].id == sessions[i].id {
            assert(sessions@[k as int]@.id == sessions@[i as int]@.id);
            return true;
        }
        k = k + 1;
    }
    false
}

/// The sessions in order, without the later records of an id already listed.
pub fn unique_by_id(sessions: &Vec<SessionInfo>) -> (r: Vec<SessionInfo>)
    ensures
        info_views(r@) == first_of_ids(info_views(sessions@)),
{
    let ghost all = info_views(sessions@);
    let mut r: Vec<SessionInfo> = Vec::new();
    let mut i: usize = 0;
    assert(all.subrange(0, 0) =~= Seq::<SessionInfoView>::empty());
    while i < sessions.len()
        invariant
            0 <= i <= sessions@.len(),
            all == info_views(sessions@),
            info_views(r@) == first_of_ids(all.subrange(0, i as int)),
        decreases sessions@.len() - i,
    {
        let ghost upto = all.subrange(0, i + 1);
        assert(upto.drop_last() =~= all.subrange(0, i as int));
        assert(upto.last() == sessions@[i as int]@);
        let seen = seen_before(sessions, i);
        assert(seen == exists|j: int| 0 <= j < upto.len() - 1 && #[trigger] upto[j].id == upto.last().id) by {
            if seen {
                let j = choose|j: int| 0 <= j < i && #[trigger] sessions@[j]@.id == sessions@[i as int]@.id;
                assert(upto[j] == sessions@[j]@);
            }
            if exists|j: int| 0 <= j < upto.len() - 1 && #[trigger] upto[j].id == upto.last().id {
                let j = choose|j: int| 0 <= j < upto.len() - 1 && #[trigger] upto[j].id == upto.last().id;
                assert(upto[j] == sessions@[j]@);
            }
        }
        if !seen {
            let ghost prior = r@;
            r.push(sessions[i].duplicate());
            assert(info_views(r@) =~= info_views(prior).push(sessions@[i as int]@));
        }
        i = i + 1;
    }
    assert(all.subrange(0, all.len() as int) =~= all);
    r
}

/// `a` comes before `b` in the order of `String`: character by character,
/// a prefix first.
pub open spec fn text_lt(a: Seq<char>, b: Seq<char>) -> bool
    decreases a.len(),
{
    if a.len() == 0 {
        b.len() > 0
    } else if b.len() == 0 {
        false
    } else if a[0] != b[0] {
        (a[0] as int) < (b[0] as int)
    } else {
        text_lt(a.drop_first(), b.drop_first())
    }
}

proof fn lemma_text_lt_total(a: Seq<char>, b: Seq<char>)
    ensures
        a == b || text_lt(a, b) || text_lt(b, a),
    decreases a.len(),
{
    if a.len() > 0 && b.len() > 0 && a[0] == b[0] {
        lemma_text_lt_total(a.drop_first(), b.drop_first());
        if a.drop_first() == b.drop_first() {
            assert(a =~= seq![a[0]] + a.drop_first());
            assert(b =~= seq![b[0]] + b.drop_first());
        }
    } else if a.len() == 0 && b.len() == 0 {
        assert(a =~= b);
    }
}

proof fn lemma_text_lt_transitive(a: Seq<char>, b: Seq<char>, c: Seq<char>)
    requires
        text_lt(a, b),
        text_lt(b, c),
    ensures
        text_lt(a, c),
    decreases a.len(),
{
    if a.len() > 0 && b.len() > 0 && c.len() > 0 && a[0] == b[0] && b[0] == c[0] {
        lemma_text_lt_transitive(a.drop_first(), b.drop_first(), c.drop_first());
    }
}

/// Whether `a` comes before `b` (see `text_lt`).
pub fn text_less(a: &str, b: &str) -> (r: bool)
    ensures
        r == text_lt(a@, b@),
{
    let n = a.unicode_len();
    let m = b.unicode_len();
    let mut i: usize = 0;
    assert(a@.subrange(0, n as int) =~= a@);
    assert(b@.subrange(0, m as int) =~= b@);
    while i < n && i < m
        invariant
            n == a@.len(),
            m == b@.len(),
            0 <= i <= n,
            i <= m,
            text_lt(a@, b@) == text_lt(a@.subrange(i as int, n as int), b@.subrange(i as int, m as int)),
        decreases n - i,
    {
        let x = a.get_char(i);
        let y = b.get_char(i);
        let ghost sa = a@.subrange(i as int, n as int);
        let ghost sb = b@.subrange(i as int, m as int);
        assert(sa[0] == x && sb[0] == y);
        if x != y {
            return (x as u32) < (y as u32);
        }
        assert(sa.drop_first() =~= a@.subrange(i + 1, n as int));
        assert(sb.drop_first() =~= b@.subrange(i + 1, m as int));
        i = i + 1;
    }
    i == n && i < m
}

pub open spec fn strictly_sorted(s: Seq<Seq<char>>) -> bool {
    forall|i: int, j: int| 0 <= i < j < s.len() ==> text_lt(#[trigger] s[i], #[trigger] s[j])
}

/// Adds `x` to a sorted list of distinct texts, where it belongs, unless it is there.
fn insert_sorted(v: &mut Vec<String>, x: String)
    requires
        strictly_sorted(line_views(old(v)@)),
    ensures
        strictly_sorted(line_views(final(v)@)),
        forall|t: Seq<char>|
            line_views(final(v)@).contains(t) <==> (line_views(old(v)@).contains(t) || t == x@),
{
    let ghost start = line_views(v@);
    let mut p: usize = 0;
    while p < v.len() && text_less(v[p].as_str(), x.as_str())
        invariant
            0 <= p <= v@.len(),
            start == line_views(v@),
            forall|k: int| 0 <= k < p ==> text_lt(#[trigger] start[k], x@),
        decreases v@.len() - p,
    {
        p = p + 1;
    }
    if p < v.len() && v[p] == x {
        assert(start[p as int] == x@);
        return;
    }
    proof {
        if p < v@.len() {
            lemma_text_lt_total(start[p as int], x@);
        }
    }
    v.insert(p, x);
    let ghost after = line_views(v@);
    assert(after =~= start.insert(p as int, x@));
    assert forall|i: int, j: int| 0 <= i < j < after.len() implies text_lt(
        #[trigger] after[i],
        #[trigger] after[j],
    ) by {
        if j < p {
        } else if j == p {
        } else if i < p {
            assert(after[j] == start[j - 1]);
            lemma_text_lt_transitive(after[i], x@, start[p as int]);
            if j - 1 > p {
                lemma_text_lt_transitive(after[i], start[p as int], start[j - 1]);
            }
        } else if i == p {
            assert(after[j] == start[j - 1]);
            if j - 1 > p {
                lemma_text_lt_transitive(x@, start[p as int], start[j - 1]);
            }
        } else {
            assert(after[i] == start[i - 1] && after[j] == start[j - 1]);
        }
    }
    assert forall|t: Seq<char>| after.contains(t) <==> (start.contains(t) || t == x@) by {
        if after.contains(t) {
            let k = choose|k: int| 0 <= k < after.len() && after[k] == t;
            if k < p {
                assert(start[k] == t);
            } else if k > p {
                assert(start[k - 1] == t);
            }
        }
        if start.contains(t) {
            let k = choose|k: int| 0 <= k < start.len() && start[k] == t;
            if k < p {
                assert(after[k] == t);
            } else {
                assert(after[k + 1] == t);
            }
        }
        if t == x@ {
            assert(after[p as int] == t);
        }
    }
}

/// Every text that any of the lists holds, once each, in order.
pub fn distinct_sorted(lists: &Vec<Vec<String>>) -> (r: Vec<String>)
    ensures
        strictly_sorted(line_views(r@)),
        forall|t: Seq<char>|
            line_views(r@).contains(t) <==> exists|i: int|
                0 <= i < lists@.len() && line_views(#[trigger] lists@[i]@).contains(t),
{
    let mut r: Vec<String> = Vec::new();
    let mut i: usize = 0;
    while i < lists.len()
        invariant
            0 <= i <= lists@.len(),
            strictly_sorted(line_views(r@)),
            forall|t: Seq<char>|
                line_views(r@).contains(t) <==> exists|k: int|
                    0 <= k < i && line_views(#[trigger] lists@[k]@).contains(t),
        decreases lists@.len() - i,
    {
        let list = &lists[i];
        let mut j: usize = 0;
        while j < list.len()
            invariant
                0 <= i < lists@.len(),
                list == lists@[i as int],
                0 <= j <= list@.len(),
                strictly_sorted(line_views(r@)),
                forall|t: Seq<char>|
                    line_views(r@).contains(t) <==> ((exists|k: int|
                        0 <= k < i && line_views(#[trigger] lists@[k]@).contains(t))
                        || line_views(list@).subrange(0, j as int).contains(t)),
            decreases list@.len() - j,
        {
            let ghost before = line_views(list@).subrange(0, j as int);
            let ghost now = line_views(list@).subrange(0, j + 1);
            assert(now =~= before.push(list@[j as int]@));
            insert_sorted(&mut r, list[j].clone());
            assert forall|t: Seq<char>| now.contains(t) <==> (before.contains(t) || t == list@[j as int]@) by {
                if now.contains(t) {
                    let k = choose|k: int| 0 <= k < now.len() && now[k] == t;
                    if k < j {
                        assert(before[k] == t);
                    }
                }
                if before.contains(t) {
                    let k = choose|k: int| 0 <= k < before.len() && before[k] == t;
                    assert(now[k] == t);
                }
                if t == list@[j as int]@ {
                    assert(now[j as int] == t);
                }
            }
            j = j + 1;
        }
        assert(line_views(list@).subrange(0, list@.len() as int) =~= line_views(list@));
        assert forall|t: Seq<char>|
            line_views(r@).contains(t) <==> exists|k: int|
                0 <= k < i + 1 && line_views(#[trigger] lists@[k]@).contains(t) by {
            if line_views(list@).contains(t) {
                assert(line_views(lists@[i as int]@).contains(t));
            }
            if exists|k: int| 0 <= k < i + 1 && line_views(#[trigger] lists@[k]@).contains(t) {
                let k = choose|k: int| 0 <= k < i + 1 && line_views(#[trigger] lists@[k]@).contains(t);
                if k == i {
                    assert(line_views(list@).contains(t));
                }
            }
        }
        i = i + 1;
    }
    r
}

/// Every tag that any of the sessions carries, once each, in order.
pub fn all_tags(sessions: &Vec<SessionInfo>) -> (r: Vec<String>)
    ensures
        strictly_sorted(line_views(r@)),
        forall|t: Seq<char>|
            line_views(r@).contains(t) <==> exists|i: int|
                0 <= i < sessions@.len() && (#[trigger] sessions@[i]@).tags.contains(t),
{
    let mut lists: Vec<Vec<String>> = Vec::new();
    let mut i: usize = 0;
    while i < sessions.len()
        invariant
            0 <= i <= sessions@.len(),
            lists@.len() == i,
            forall|k: int| 0 <= k < i ==> line_views(#[trigger] lists@[k]@) == sessions@[k]@.tags,
        decreases sessions@.len() - i,
    {
        lists.push(copy_lines(&sessions[i].tags));
        i = i + 1;
    }
    let r = distinct_sorted(&lists);
    assert forall|t: Seq<char>|
        line_views(r@).contains(t) <==> exists|i: int|
            0 <= i < sessions@.len() && (#[trigger] sessions@[i]@).tags.contains(t) by {
        if exists|i: int| 0 <= i < sessions@.len() && (#[trigger] sessions@[i]@).tags.contains(t) {
            let i = choose|i: int| 0 <= i < sessions@.len() && (#[trigger] sessions@[i]@).tags.contains(t);
            assert(line_views(lists@[i]@).contains(t));
        }
        if line_views(r@).contains(t) {
            let k = choose|k: int| 0 <= k < lists@.len() && line_views(#[trigger] lists@[k]@).contains(t);
            assert(sessions@[k]@.tags.contains(t));
        }
    }
    r
}

/// Every server name that any of the sessions records, once each, in order.
pub fn all_server_names(sessions: &Vec<SessionInfo>) -> (r: Vec<String>)
    ensures
        strictly_sorted(line_views(r@)),
        forall|t: Seq<char>|
            line_views(r@).contains(t) <==> exists|i: int|
                0 <= i < sessions@.len() && (#[trigger] sessions@[i]@).server_name == Some(t),
{
    let mut lists: Vec<Vec<String>> = Vec::new();
    let mut i: usize = 0;
    while i < sessions.len()
        invariant
            0 <= i <= sessions@.len(),
            lists@.len() == i,
            forall|k: int|
                0 <= k < i ==> line_views(#[trigger] lists@[k]@) == match sessions@[k]@.server_name {
                    Some(n) => seq![n],
                    None => Seq::<Seq<char>>::empty(),
                },
        decreases sessions@.len() - i,
    {
        let mut one: Vec<String> = Vec::new();
        match &sessions[i].server_name {
            Some(n) => {
                one.push(n.clone());
                assert(line_views(one@) =~= seq![n@]);
            },
            None => {
                assert(line_views(one@) =~= Seq::<Seq<char>>::empty());
            },
        }
        lists.push(one);
        i = i + 1;
    }
    let r = distinct_sorted(&lists);
    assert forall|t: Seq<char>|
        line_views(r@).contains(t) <==> exists|i: int|
            0 <= i < sessions@.len() && (#[trigger] sessions@[i]@).server_name == Some(t) by {
        if exists|i: int| 0 <= i < sessions@.len() && (#[trigger] sessions@[i]@).server_name == Some(t) {
            let i = choose|i: int| 0 <= i < sessions@.len() && (#[trigger] sessions@[i]@).server_name == Some(t);
            assert(line_views(lists@[i]@)[0] == t);
        }
        if line_views(r@).contains(t) {
            let k = choose|k: int| 0 <= k < lists@.len() && line_views(#[trigger] lists@[k]@).contains(t);
            let j = choose|j: int| 0 <= j < line_views(lists@[k]@).len() && line_views(lists@[k]@)[j] == t;
            assert(sessions@[k]@.server_name == Some(t));
        }
    }
    r
}

} // verus!
