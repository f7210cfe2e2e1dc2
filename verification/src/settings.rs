//! A small key-value configuration store, and the application-settings
//! manager built on it. Keys are unique; storing to a present key
//! replaces its value in place, storing to an absent key appends. The
//! process-wide shared instance lives with the embedding program.

use vstd::prelude::*;

verus! {

use vstd::string::StringExecFns;

/// The view of a stored table: each pair as its key and value text.
pub open spec fn table_of(ps: Seq<(String, String)>) -> Seq<(Seq<char>, Seq<char>)> {
    ps.map_values(|p: (String, String)| (p.0@, p.1@))
}

/// No two entries share a key.
pub open spec fn keys_unique(t: Seq<(Seq<char>, Seq<char>)>) -> bool {
    forall|i: int, j: int| 0 <= i < j < t.len() ==> (#[trigger] t[i]).0 != (#[trigger] t[j]).0
}

/// Storing a pair: the first entry with the key is replaced; with no such
/// entry the pair goes to the end.
pub open spec fn upsert(
    t: Seq<(Seq<char>, Seq<char>)>,
    k: Seq<char>,
    v: Seq<char>,
) -> Seq<(Seq<char>, Seq<char>)>
    decreases t.len(),
{
    if t.len() == 0 {
        seq![(k, v)]
    } else if t[0].0 == k {
        seq![(k, v)] + t.drop_first()
    } else {
        seq![t[0]] + upsert(t.drop_first(), k, v)
    }
}

/// When the key first occurs at position `i`, storing replaces exactly
/// that entry.
proof fn lemma_upsert_found(t: Seq<(Seq<char>, Seq<char>)>, k: Seq<char>, v: Seq<char>, i: int)
    requires
        0 <= i < t.len(),
        forall|j: int| 0 <= j < i ==> (#[trigger] t[j]).0 != k,
        t[i].0 == k,
    ensures
        upsert(t, k, v) == t.update(i, (k, v)),
    decreases i,
{
    if i == 0 {
        assert(upsert(t, k, v) =~= t.update(0, (k, v)));
    } else {
        assert forall|j: int| 0 <= j < i - 1 implies (#[trigger] t.drop_first()[j]).0 != k by {
            assert(t[j + 1].0 != k);
        }
        assert(t.drop_first()[i - 1].0 == k);
        lemma_upsert_found(t.drop_first(), k, v, i - 1);
        assert(upsert(t, k, v) =~= t.update(i, (k, v)));
    }
}

/// When the key occurs nowhere, storing appends.
proof fn lemma_upsert_absent(t: Seq<(Seq<char>, Seq<char>)>, k: Seq<char>, v: Seq<char>)
    requires
        forall|j: int| 0 <= j < t.len() ==> (#[trigger] t[j]).0 != k,
    ensures
        upsert(t, k, v) == t.push((k, v)),
    decreases t.len(),
{
    if t.len() == 0 {
        assert(upsert(t, k, v) =~= t.push((k, v)));
    } else {
        assert forall|j: int| 0 <= j < t.drop_first().len()
            implies (#[trigger] t.drop_first()[j]).0 != k by {
            assert(t[j + 1].0 != k);
        }
        lemma_upsert_absent(t.drop_first(), k, v);
        assert(upsert(t, k, v) =~= t.push((k, v)));
    }
}

/// A copy of a stored table, pair for pair.
pub(crate) fn clone_entries(src: &Vec<(String, String)>) -> (r: Vec<(String, String)>)
    ensures
        r@ == src@,
{
    let mut out: Vec<(String, String)> = Vec::new();
    let n = src.len();
    let mut i: usize = 0;
    while i < n
        invariant
            i <= n,
            n == src@.len(),
            out@ =~= src@.take(i as int),
        decreases n - i,
    {
        let k = src[i].0.clone();
        let v = src[i].1.clone();
        out.push((k, v));
        proof {
            assert(out@ =~= src@.take(i + 1));
        }
        i = i + 1;
    }
    proof {
        assert(src@.take(n as int) =~= src@);
    }
    out
}

/// Stores a pair into a table with unique keys, replacing in place or
/// appending.
#[verifier::loop_isolation(false)]
pub(crate) fn store_pair(entries: &mut Vec<(String, String)>, key: &str, value: &str)
    requires
        keys_unique(table_of(old(entries)@)),
    ensures
        keys_unique(table_of(final(entries)@)),
        table_of(final(entries)@) == upsert(table_of(old(entries)@), key@, value@),
{
    let ghost t0 = table_of(old(entries)@);
    let k = key.to_owned();
    let v = value.to_owned();
    let n = entries.len();
    let mut i: usize = 0;
    while i < n
        invariant
            i <= n,
            n == entries@.len(),
            entries@ == old(entries)@,
            forall|j: int| 0 <= j < i ==> (#[trigger] t0[j]).0 != key@,
        decreases n - i,
    {
        let hit = entries[i].0 == k;
        proof {
            assert(t0[i as int].0 == entries@[i as int].0@);
        }
        if hit {
            entries[i] = (k, v);
            proof {
                lemma_upsert_found(t0, key@, value@, i as int);
                assert(table_of(entries@) =~= t0.update(i as int, (key@, value@)));
                let t1 = table_of(entries@);
                assert forall|a: int, b: int| 0 <= a < b < t1.len()
                    implies (#[trigger] t1[a]).0 != (#[trigger] t1[b]).0 by {
                    assert(t0[a].0 != t0[b].0);
                    assert(t1[a].0 == t0[a].0);
                    assert(t1[b].0 == t0[b].0);
                }
            }
            return;
        }
        i = i + 1;
    }
    entries.push((k, v));
    proof {
        lemma_upsert_absent(t0, key@, value@);
        assert(table_of(entries@) =~= t0.push((key@, value@)));
        let t1 = table_of(entries@);
        assert forall|a: int, b: int| 0 <= a < b < t1.len()
            implies (#[trigger] t1[a]).0 != (#[trigger] t1[b]).0 by {
            if b < t1.len() - 1 {
                assert(t0[a].0 != t0[b].0);
            } else {
                assert(t0[a].0 != key@);
            }
        }
    }
}

/// The default application settings.
pub open spec fn default_table() -> Seq<(Seq<char>, Seq<char>)> {
    seq![
        ("theme"@, "light"@),
        ("language"@, "en"@),
        ("notifications"@, "true"@),
        ("auto_save"@, "true"@),
    ]
}

/// Builds the default settings table.
fn default_entries() -> (r: Vec<(String, String)>)
    ensures
        table_of(r@) == default_table(),
        keys_unique(table_of(r@)),
{
    let mut out: Vec<(String, String)> = Vec::new();
    out.push((String::from_str("theme"), String::from_str("light")));
    out.push((String::from_str("language"), String::from_str("en")));
    out.push((String::from_str("notifications"), String::from_str("true")));
    out.push((String::from_str("auto_save"), String::from_str("true")));
    proof {
        assert(table_of(out@) =~= default_table());
        reveal_strlit("theme");
        reveal_strlit("language");
        reveal_strlit("notifications");
        reveal_strlit("auto_save");
        assert(("theme"@).len() == 5);
        assert(("language"@).len() == 8);
        assert(("notifications"@).len() == 13);
        assert(("auto_save"@).len() == 9);
        assert(keys_unique(table_of(out@)));
    }
    out
}

/// Application settings with defaults for theme, language, notifications
/// and auto-save.
pub struct ConfigManager {
    entries: Vec<(String, String)>,
}

impl ConfigManager {
    /// The stored settings, as key and value text.
    pub closed spec fn table(self) -> Seq<(Seq<char>, Seq<char>)> {
        table_of(self.entries@)
    }

    /// Keys are unique.
    pub open spec fn wf(self) -> bool {
        keys_unique(self.table())
    }

    /// A manager holding the default settings.
    pub fn new() -> (r: ConfigManager)
        ensures
            r.wf(),
            r.table() == default_table(),
    {
        ConfigManager { entries: default_entries() }
    }

    /// A copy of the current settings.
    pub fn get_config(&self) -> (r: Vec<(String, String)>)
        ensures
            table_of(r@) == self.table(),
    {
        clone_entries(&self.entries)
    }

    /// Stores one setting and returns a copy of the result.
    pub fn set_config(&mut self, key: &str, value: &str) -> (r: Vec<(String, String)>)
        requires
            old(self).wf(),
        ensures
            final(self).wf(),
            final(self).table() == upsert(old(self).table(), key@, value@),
            table_of(r@) == final(self).table(),
    {
        store_pair(&mut self.entries, key, value);
        clone_entries(&self.entries)
    }

    /// Puts the defaults back and returns a copy of them.
    pub fn reset_config(&mut self) -> (r: Vec<(String, String)>)
        ensures
            final(self).wf(),
            final(self).table() == default_table(),
            table_of(r@) == final(self).table(),
    {
        self.entries = default_entries();
        clone_entries(&self.entries)
    }
}

/// The starting state of the process-wide settings manager. The static
/// cell that hands every caller the same manager lives with the
/// embedding program; this is the value it starts from.
pub fn instance() -> (r: ConfigManager)
    ensures
        r.wf(),
        r.table() == default_table(),
{
    ConfigManager::new()
}

} // verus!
