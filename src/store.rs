use vstd::prelude::*;

use crate::domain::{is_blockable, is_blockable_domain, is_local};
use crate::hosts::{
    blocked_names, classify, line_views, parse_hosts, parse_lines, parse_text, serialize_hosts,
    serialize_text, LineKind, LineView, ParseError, PreservedLine,
};
use crate::commit::{
    follows, lemma_publish_is_atomic, lemma_snapshot_holds_content, rename_at, under, CommitPlan,
    Files,
};
use crate::round_trip::{
    alias_pairs, doc_ok, kept_plain, lemma_parse_ok, lemma_round_trip_doc, line_ok,
};
use crate::text::{insert_sorted, remove_sorted, split, strictly_sorted, views};

verus! {

/// Where the hosts file and its history live, and how much history to keep.
#[derive(Clone, Debug)]
pub struct Config {
    /// The hosts file; the platform's default when absent.
    pub host_file_path: Option<String>,
    /// The directory of snapshots; no history is kept when absent.
    pub history_dir: Option<String>,
    /// How many snapshots to keep.
    pub max_history_entries: usize,
}

impl Config {
    /// No history, the platform's hosts file, ten snapshots once history is configured.
    pub fn new() -> (r: Config)
        ensures
            r.host_file_path is None,
            r.history_dir is None,
            r.max_history_entries == 10,
    {
        Config { host_file_path: None, history_dir: None, max_history_entries: 10 }
    }
}

/// No name on the list names this machine.
pub open spec fn none_local(m: Set<Seq<char>>) -> bool {
    forall|x: Seq<char>| #[trigger] m.contains(x) ==> !is_local(x)
}

/// The block list after a request to add `d`: `d` joins it if a user may add it.
pub open spec fn added(m: Set<Seq<char>>, d: Seq<char>) -> Set<Seq<char>> {
    if is_blockable(d) {
        m.insert(d)
    } else {
        m
    }
}

/// The in-memory hosts file: the blocked names and the lines that are kept.
pub struct AppState {
    /// The blocked names, ascending and without duplicates.
    pub blocking: Vec<String>,
    /// The kept lines, in the order of the file.
    pub preserved_lines: Vec<PreservedLine>,
    pub config: Config,
}

impl AppState {
    pub open spec fn blocked(&self) -> Set<Seq<char>> {
        views(self.blocking@).to_set()
    }

    pub open spec fn lines(&self) -> Seq<LineView> {
        line_views(self.preserved_lines@)
    }

    /// The blocked names are listed ascending, once each, and none names this machine; the
    /// blocked names and kept lines are as the parser leaves them.
    pub open spec fn wf(&self) -> bool {
        &&& strictly_sorted(views(self.blocking@))
        &&& none_local(self.blocked())
        &&& doc_ok(self.blocked(), self.lines())
    }

    /// An empty store.
    pub fn new(config: Config) -> (r: AppState)
        ensures
            r.wf(),
            r.blocked() == Set::<Seq<char>>::empty(),
            r.lines() == Seq::<LineView>::empty(),
    {
        let r = AppState { blocking: Vec::new(), preserved_lines: Vec::new(), config };
        assert(r.blocked() =~= Set::<Seq<char>>::empty());
        assert(r.lines() =~= Seq::<LineView>::empty());
        r
    }

    /// Replaces both the blocked names and the kept lines with those of `content`; on a parse
    /// error nothing changes.
    pub fn load_from_text(&mut self, content: &str) -> (r: Result<(), ParseError>)
        requires
            old(self).wf(),
        ensures
            final(self).wf(),
            final(self).config == old(self).config,
            match r {
                Ok(()) => parse_text(content@) == Ok::<_, int>(
                    (final(self).blocked(), final(self).lines()),
                ),
                Err(e) => parse_text(content@) == Err::<(Set<Seq<char>>, Seq<LineView>), int>(
                    e.line as int,
                ) && final(self).blocked() == old(self).blocked() && final(self).lines() == old(
                    self,
                ).lines(),
            },
    {
        match parse_hosts(content) {
            Ok(p) => {
                proof {
                    lemma_parse_never_blocks_local(content@);
                    lemma_parse_ok(content@);
                }
                self.blocking = p.blocking;
                self.preserved_lines = p.preserved_lines;
                Ok(())
            },
            Err(e) => Err(e),
        }
    }

    /// Adds a name to the block list if a user may add it (one token of at most 253
    /// characters that does not name this machine); otherwise nothing changes. Adding a name
    /// that is there already changes nothing either. Returns whether the name was accepted.
    pub fn add_block(&mut self, hostname: &str) -> (accepted: bool)
        requires
            old(self).wf(),
        ensures
            final(self).wf(),
            accepted == is_blockable(hostname@),
            final(self).blocked() == added(old(self).blocked(), hostname@),
            final(self).lines() == old(self).lines(),
            final(self).config == old(self).config,
    {
        if !is_blockable_domain(hostname) {
            return false;
        }
        let name = String::from_str(hostname);
        insert_sorted(&mut self.blocking, name);
        assert forall|x: Seq<char>| #[trigger] self.blocked().contains(x) implies !is_local(x) by {
            if x != hostname@ {
                assert(old(self).blocked().contains(x));
            }
        }
        assert forall|x: Seq<char>| #[trigger] self.blocked().contains(x) implies crate::round_trip::is_word(x) by {
            if x != hostname@ {
                assert(old(self).blocked().contains(x));
            }
        }
        assert(self.lines() == old(self).lines());
        assert forall|k: int| 0 <= k < self.lines().len() implies line_ok(#[trigger] self.lines()[k]) by {
            assert(old(self).lines()[k] == self.lines()[k]);
        }
        true
    }

    /// Removes a name from the block list; nothing changes if it is not there.
    pub fn remove_block(&mut self, hostname: &str)
        requires
            old(self).wf(),
        ensures
            final(self).wf(),
            final(self).blocked() == old(self).blocked().remove(hostname@),
            final(self).lines() == old(self).lines(),
            final(self).config == old(self).config,
    {
        remove_sorted(&mut self.blocking, hostname);
        assert forall|x: Seq<char>| #[trigger] self.blocked().contains(x) implies !is_local(x) by {
            assert(old(self).blocked().contains(x));
        }
        assert forall|x: Seq<char>| #[trigger] self.blocked().contains(x) implies crate::round_trip::is_word(x) by {
            assert(old(self).blocked().contains(x));
        }
        assert(self.lines() == old(self).lines());
        assert forall|k: int| 0 <= k < self.lines().len() implies line_ok(#[trigger] self.lines()[k]) by {
            assert(old(self).lines()[k] == self.lines()[k]);
        }
    }

    /// A copy of the blocked names, ascending.
    pub fn get_all_blocks(&self) -> (r: Vec<String>)
        requires
            self.wf(),
        ensures
            views(r@) == views(self.blocking@),
            strictly_sorted(views(r@)),
            views(r@).to_set() == self.blocked(),
    {
        let mut r: Vec<String> = Vec::new();
        let mut i: usize = 0;
        while i < self.blocking.len()
            invariant
                i <= self.blocking@.len(),
                r@.len() == i,
                forall|k: int| 0 <= k < i ==> (#[trigger] r@[k])@ == self.blocking@[k]@,
            decreases self.blocking@.len() - i,
        {
            r.push(self.blocking[i].clone());
            i = i + 1;
        }
        assert(views(r@) =~= views(self.blocking@));
        r
    }

    /// The hosts-file text of the current state.
    pub fn serialize(&self) -> (r: String)
        requires
            self.wf(),
        ensures
            r@ == serialize_text(self.blocked(), self.lines()),
    {
        serialize_hosts(&self.preserved_lines, &self.blocking)
    }

    /// How many names are blocked.
    pub fn get_statistics(&self) -> (r: usize)
        requires
            self.wf(),
        ensures
            r == self.blocking@.len(),
            r == self.blocked().len(),
    {
        proof {
            lemma_sorted_no_duplicates(views(self.blocking@));
            views(self.blocking@).unique_seq_to_set();
        }
        self.blocking.len()
    }

    pub fn get_config(&self) -> (r: Config)
        ensures
            r.host_file_path == self.config.host_file_path,
            r.history_dir == self.config.history_dir,
            r.max_history_entries == self.config.max_history_entries,
    {
        Config {
            host_file_path: match &self.config.host_file_path {
                Some(p) => Some(p.clone()),
                None => None,
            },
            history_dir: match &self.config.history_dir {
                Some(p) => Some(p.clone()),
                None => None,
            },
            max_history_entries: self.config.max_history_entries,
        }
    }

    pub fn update_config(&mut self, config: Config)
        ensures
            final(self).config == config,
            final(self).blocking == old(self).blocking,
            final(self).preserved_lines == old(self).preserved_lines,
    {
        self.config = config;
    }
}

proof fn lemma_sorted_no_duplicates(s: Seq<Seq<char>>)
    requires
        strictly_sorted(s),
    ensures
        s.no_duplicates(),
{
    assert forall|i: int, j: int| 0 <= i < s.len() && 0 <= j < s.len() && i != j implies s[i] != s[j] by {
        if i < j {
            assert(crate::text::text_lt(s[i], s[j]));
        } else {
            assert(crate::text::text_lt(s[j], s[i]));
        }
        crate::text::lemma_text_lt_irreflexive(s[i]);
    }
}

proof fn lemma_blocked_names_not_local(hs: Seq<Seq<char>>)
    ensures
        none_local(blocked_names(hs)),
    decreases hs.len(),
{
    if hs.len() > 0 {
        lemma_blocked_names_not_local(hs.drop_last());
        assert forall|x: Seq<char>| #[trigger] blocked_names(hs).contains(x) implies !is_local(x) by {
            if x != hs.last() {
                assert(blocked_names(hs.drop_last()).contains(x));
            }
        }
    }
}

proof fn lemma_parse_lines_not_local(lines: Seq<Seq<char>>)
    ensures
        parse_lines(lines) is Ok ==> none_local(parse_lines(lines)->Ok_0.0),
    decreases lines.len(),
{
    if lines.len() > 0 {
        lemma_parse_lines_not_local(lines.drop_last());
        match classify(lines.last()) {
            LineKind::Loopback(a, hs) => lemma_blocked_names_not_local(hs),
            _ => {},
        }
    }
}

/// Parsing never puts a name of this machine on the block list: such names in a loopback
/// record are kept as aliases instead.
pub proof fn lemma_parse_never_blocks_local(text: Seq<char>)
    ensures
        parse_text(text) is Ok ==> none_local(parse_text(text)->Ok_0.0),
{
    lemma_parse_lines_not_local(split(text, '\n'));
}

proof fn lemma_alias_lines_has(a: crate::addr::IpAddress, hs: Seq<Seq<char>>, j: int)
    requires
        0 <= j < hs.len(),
        is_local(hs[j]),
    ensures
        crate::hosts::alias_lines(a, hs).contains(LineView::Alias(a, hs[j])),
    decreases hs.len(),
{
    let r = crate::hosts::alias_lines(a, hs.drop_last());
    if j == hs.len() - 1 {
        assert(crate::hosts::alias_lines(a, hs) == r.push(LineView::Alias(a, hs[j])));
        assert(r.push(LineView::Alias(a, hs[j]))[r.len() as int] == LineView::Alias(a, hs[j]));
    } else {
        assert(hs.drop_last()[j] == hs[j]);
        lemma_alias_lines_has(a, hs.drop_last(), j);
        let i = choose|i: int| 0 <= i < r.len() && r[i] == LineView::Alias(a, hs[j]);
        if is_local(hs.last()) {
            assert(r.push(LineView::Alias(a, hs.last()))[i] == r[i]);
        }
    }
}

proof fn lemma_parse_lines_keeps_alias(lines: Seq<Seq<char>>, k: int, j: int)
    requires
        0 <= k < lines.len(),
        parse_lines(lines) is Ok,
        classify(lines[k]) is Loopback,
        0 <= j < classify(lines[k])->Loopback_1.len(),
        is_local(classify(lines[k])->Loopback_1[j]),
    ensures
        parse_lines(lines)->Ok_0.1.contains(
            LineView::Alias(classify(lines[k])->Loopback_0, classify(lines[k])->Loopback_1[j]),
        ),
    decreases lines.len(),
{
    let a = classify(lines[k])->Loopback_0;
    let hs = classify(lines[k])->Loopback_1;
    let x = LineView::Alias(a, hs[j]);
    let front = lines.drop_last();
    assert(parse_lines(front) is Ok);
    let p = parse_lines(front)->Ok_0.1;
    if k == lines.len() - 1 {
        lemma_alias_lines_has(a, hs, j);
        let al = crate::hosts::alias_lines(a, hs);
        let i = choose|i: int| 0 <= i < al.len() && al[i] == x;
        assert((p + al)[p.len() + i] == x);
    } else {
        assert(front[k] == lines[k]);
        lemma_parse_lines_keeps_alias(front, k, j);
        let i = choose|i: int| 0 <= i < p.len() && p[i] == x;
        match classify(lines.last()) {
            LineKind::Note(t) => assert(p.push(LineView::Comment(t))[i] == x),
            LineKind::Foreign(t) => assert(p.push(LineView::Foreign(t))[i] == x),
            LineKind::Loopback(b, gs) => assert((p + crate::hosts::alias_lines(b, gs))[i] == x),
            _ => {},
        }
    }
}

/// A name of this machine on a loopback record is never blocked: it is kept as an alias of
/// that record's address.
pub proof fn lemma_parse_keeps_local_names(text: Seq<char>, k: int, j: int)
    requires
        parse_text(text) is Ok,
        0 <= k < split(text, '\n').len(),
        classify(split(text, '\n')[k]) is Loopback,
        0 <= j < classify(split(text, '\n')[k])->Loopback_1.len(),
        is_local(classify(split(text, '\n')[k])->Loopback_1[j]),
    ensures
        !parse_text(text)->Ok_0.0.contains(classify(split(text, '\n')[k])->Loopback_1[j]),
        parse_text(text)->Ok_0.1.contains(
            LineView::Alias(
                classify(split(text, '\n')[k])->Loopback_0,
                classify(split(text, '\n')[k])->Loopback_1[j],
            ),
        ),
{
    lemma_parse_never_blocks_local(text);
    lemma_parse_lines_keeps_alias(split(text, '\n'), k, j);
}

/// Adding never puts a name of this machine on the block list.
pub proof fn lemma_add_never_blocks_local(m: Set<Seq<char>>, d: Seq<char>)
    requires
        is_local(d),
    ensures
        added(m, d) == m,
{
}

/// Adding a name twice leaves the block list as adding it once does.
pub proof fn lemma_add_idempotent(m: Set<Seq<char>>, d: Seq<char>)
    ensures
        added(added(m, d), d) == added(m, d),
{
    if is_blockable(d) {
        assert(m.insert(d).insert(d) =~= m.insert(d));
    }
}

/// Removing a name that is not on the block list changes nothing.
pub proof fn lemma_remove_absent(m: Set<Seq<char>>, d: Seq<char>)
    requires
        !m.contains(d),
    ensures
        m.remove(d) == m,
{
    assert(m.remove(d) =~= m);
}

/// Writing the store back and parsing the text gives its blocked names, its comments and
/// foreign records in their order, and its aliases: whatever edits led to the state.
pub proof fn lemma_store_round_trip(s: AppState)
    requires
        s.wf(),
    ensures
        parse_text(serialize_text(s.blocked(), s.lines())) is Ok,
        parse_text(serialize_text(s.blocked(), s.lines()))->Ok_0.0 == s.blocked(),
        kept_plain(parse_text(serialize_text(s.blocked(), s.lines()))->Ok_0.1) == kept_plain(s.lines()),
        alias_pairs(parse_text(serialize_text(s.blocked(), s.lines()))->Ok_0.1) == alias_pairs(s.lines()),
{
    lemma_round_trip_doc(s.blocked(), s.lines(), views(s.blocking@));
}

/// A name accepted by `add_block` is blocked by the text the store then writes: parsing that
/// text (the snapshot and the published hosts file alike) yields a block list holding it.
pub proof fn lemma_added_name_is_written(before: AppState, after: AppState, d: Seq<char>)
    requires
        after.wf(),
        is_blockable(d),
        after.blocked() == added(before.blocked(), d),
    ensures
        parse_text(serialize_text(after.blocked(), after.lines())) is Ok,
        parse_text(serialize_text(after.blocked(), after.lines()))->Ok_0.0.contains(d),
{
    lemma_store_round_trip(after);
}

/// Adding a name and committing the store's text with history: the commit writes exactly one
/// new snapshot, inside the history directory, and once the rename has run the hosts file
/// holds the same text; parsing that text gives a block list holding the name.
pub proof fn lemma_add_then_commit(
    before: AppState,
    after: AppState,
    d: Seq<char>,
    plan: CommitPlan,
    runs: Seq<Files>,
)
    requires
        after.wf(),
        is_blockable(d),
        after.blocked() == added(before.blocked(), d),
        plan.wf(),
        plan.content@ == serialize_text(after.blocked(), after.lines()),
        plan.history_dir is Some,
        follows(plan, runs),
        runs.len() - 1 > rename_at(plan),
    ensures
        exists|p: Seq<char>|
            under(p, plan.history_dir->0@) && !runs[0].contains_key(p) && runs[1] == runs[0].insert(
                p,
                plan.content@,
            ),
        runs.last().contains_key(plan.target@) && runs.last()[plan.target@] == plan.content@,
        parse_text(plan.content@) is Ok,
        parse_text(plan.content@)->Ok_0.0.contains(d),
{
    lemma_snapshot_holds_content(plan, runs);
    lemma_publish_is_atomic(plan, runs);
    lemma_added_name_is_written(before, after, d);
}

} // verus!
