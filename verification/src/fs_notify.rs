//! The filesystem-notification core: change kinds, the watch registry,
//! path normalisation, and the event-matching logic.
//!
//! Everything here works on plain values (strings, vectors, bitmask
//! words). The OS notification session itself lives outside the library;
//! the functions here decide what to register and what to emit.

use vstd::prelude::*;
use vstd::string::StrSliceExecFns;
use vstd::string::StringExecFns;

verus! {

/// The semantic kinds of filesystem change a caller can register
/// interest in. `Undefined` stands for anything the OS reports that
/// maps to none of the supported kinds.
#[derive(Debug, Clone, Copy, PartialEq, Eq, Structural, Hash, PartialOrd, Ord)]
pub enum Masks {
    Modified,
    Deleted,
    Created,
    Undefined,
}

/// The native watch-request bit for a kind, as the OS facility defines
/// them: `MODIFY`, `DELETE` and `CREATE`. `Undefined` contributes no bit.
pub open spec fn spec_watch_mask_bits(m: Masks) -> u32 {
    match m {
        Masks::Modified => 0x2,
        Masks::Deleted => 0x200,
        Masks::Created => 0x100,
        Masks::Undefined => 0x0,
    }
}

impl Masks {
    /// The native watch-request bit for this kind.
    pub fn watch_mask_bits(&self) -> (r: u32)
        ensures
            r == spec_watch_mask_bits(*self),
    {
        match self {
            Masks::Modified => 0x2,
            Masks::Deleted => 0x200,
            Masks::Created => 0x100,
            Masks::Undefined => 0x0,
        }
    }

    /// Translate a raw event bitmask to a kind. Only a mask that is
    /// exactly the word for one supported kind translates to that kind;
    /// anything else is `Undefined`.
    pub fn from_event_mask_bits(bits: u32) -> (r: Masks)
        ensures
            r == spec_from_event_mask_bits(bits),
    {
        if bits == 0x2 {
            Masks::Modified
        } else if bits == 0x200 {
            Masks::Deleted
        } else if bits == 0x100 {
            Masks::Created
        } else {
            Masks::Undefined
        }
    }
}

/// What a raw event bitmask translates to.
pub open spec fn spec_from_event_mask_bits(bits: u32) -> Masks {
    if bits == 0x2 {
        Masks::Modified
    } else if bits == 0x200 {
        Masks::Deleted
    } else if bits == 0x100 {
        Masks::Created
    } else {
        Masks::Undefined
    }
}

/// Why a watch could not be set up or a stream had to end.
#[derive(Debug, Clone, PartialEq, Eq)]
pub enum NotifyStreamError {
    /// The OS polling primitive failed; the field carries its message.
    FromIOError(String),
    /// The OS notification facility could not be opened.
    NotifyInitError,
    /// A raw event carried a file name that is not representable as text.
    ErrorCreatingStream,
    /// The path could not be split into a parent directory and a file name.
    ErrorNormalisingWatcher { path: String },
    /// Reserved for stricter validation: a kind bitmask that maps to no kind.
    UnsupportedWatchMask { mask: u32 },
    /// Reserved for stricter validation: a computed parent directory that
    /// does not match the expected one.
    WrongParentDirectory { expected: String, actual: String },
    /// Reserved for stricter validation: a second registration of the very
    /// same (directory, target, kind) triple.
    DuplicateWatcher { mask: Masks, path: String },
}

/// The bitwise union of the watch-request bits of a sequence of kinds.
pub open spec fn spec_pipe_masks(s: Seq<Masks>) -> u32
    decreases s.len(),
{
    if s.len() == 0 {
        0u32
    } else {
        spec_pipe_masks(s.drop_last()) | spec_watch_mask_bits(s.last())
    }
}

/// Fold a set of kinds into the single bitmask word that the OS watch
/// request takes: the bitwise union of each kind's bit.
pub fn pipe_masks_into_watch_mask(masks: &Vec<Masks>) -> (r: u32)
    ensures
        r == spec_pipe_masks(masks@),
{
    let mut watch_mask: u32 = 0;
    let mut i: usize = 0;
    while i < masks.len()
        invariant
            0 <= i <= masks@.len(),
            watch_mask == spec_pipe_masks(masks@.take(i as int)),
        decreases masks@.len() - i,
    {
        watch_mask = watch_mask | masks[i].watch_mask_bits();
        proof {
            assert(masks@.take(i + 1 as int).drop_last() =~= masks@.take(i as int));
            assert(masks@.take(i + 1 as int).last() == masks@[i as int]);
        }
        i = i + 1;
    }
    proof {
        assert(masks@.take(masks@.len() as int) =~= masks@);
    }
    watch_mask
}

/// One registered interest: a directory, a target name (or the wildcard
/// `"*"`), and the kinds asked for so far.
struct WatchEntry {
    dir: String,
    name: String,
    masks: Vec<Masks>,
}

/// The bookkeeping structure behind a watch session: for each watched
/// directory, for each target, the set of change kinds of interest.
/// Pure data and accumulation logic; it performs no I/O.
///
/// Its abstract value is a map from `(directory, target)` pairs to the
/// registered kinds, in registration order and free of duplicates.
pub struct WatchDescriptor {
    entries: Vec<WatchEntry>,
}

/// `ks` appended to `s`, skipping every kind already present: the
/// set-semantics accumulation step of the registry.
pub open spec fn append_missing(s: Seq<Masks>, ks: Seq<Masks>) -> Seq<Masks>
    decreases ks.len(),
{
    if ks.len() == 0 {
        s
    } else {
        let s1 = if s.contains(ks[0]) {
            s
        } else {
            s.push(ks[0])
        };
        append_missing(s1, ks.drop_first())
    }
}

/// The registry after registering kinds `ks` for `(d, f)`: the pair's
/// entry is created if absent, and every kind not already present is
/// appended to it.
pub open spec fn reg_insert(
    m: Map<(Seq<char>, Seq<char>), Seq<Masks>>,
    d: Seq<char>,
    f: Seq<char>,
    ks: Seq<Masks>,
) -> Map<(Seq<char>, Seq<char>), Seq<Masks>> {
    let prev = if m.dom().contains((d, f)) {
        m[(d, f)]
    } else {
        Seq::empty()
    };
    m.insert((d, f), append_missing(prev, ks))
}

/// Whether any target at all is registered under directory `d`.
pub open spec fn dir_registered(m: Map<(Seq<char>, Seq<char>), Seq<Masks>>, d: Seq<char>) -> bool {
    exists|f: Seq<char>| m.dom().contains((d, f))
}

/// The union, over every target registered under `d`, of that target's
/// kinds: exactly the mask the OS watch on `d` must carry.
pub open spec fn masks_union(m: Map<(Seq<char>, Seq<char>), Seq<Masks>>, d: Seq<char>) -> Set<
    Masks,
> {
    Set::new(
        |k: Masks| exists|f: Seq<char>| #[trigger] m.dom().contains((d, f)) && m[(d, f)].contains(k),
    )
}

/// The kinds of `s` listed in canonical order, each at most once.
pub open spec fn sorted_masks_of(s: Set<Masks>) -> Seq<Masks> {
    (if s.contains(Masks::Modified) {
        seq![Masks::Modified]
    } else {
        Seq::empty()
    }) + (if s.contains(Masks::Deleted) {
        seq![Masks::Deleted]
    } else {
        Seq::empty()
    }) + (if s.contains(Masks::Created) {
        seq![Masks::Created]
    } else {
        Seq::empty()
    }) + (if s.contains(Masks::Undefined) {
        seq![Masks::Undefined]
    } else {
        Seq::empty()
    })
}

/// Whether some entry of `s` registers target `f` under directory `d`.
spec fn has_entry(s: Seq<WatchEntry>, d: Seq<char>, f: Seq<char>) -> bool {
    exists|i: int| 0 <= i < s.len() && s[i].dir@ == d && s[i].name@ == f
}

/// The kinds registered for `(d, f)`; meaningful only when `has_entry`.
spec fn masks_at(s: Seq<WatchEntry>, d: Seq<char>, f: Seq<char>) -> Seq<Masks> {
    let i = choose|i: int| 0 <= i < s.len() && s[i].dir@ == d && s[i].name@ == f;
    s[i].masks@
}

/// The map view of a sequence of entries.
spec fn entries_view(s: Seq<WatchEntry>) -> Map<(Seq<char>, Seq<char>), Seq<Masks>> {
    Map::new(
        |p: (Seq<char>, Seq<char>)| has_entry(s, p.0, p.1),
        |p: (Seq<char>, Seq<char>)| masks_at(s, p.0, p.1),
    )
}

/// No two entries of `s` register the same `(directory, target)` pair.
spec fn pairs_unique(s: Seq<WatchEntry>) -> bool {
    forall|i1: int, i2: int|
        0 <= i1 < i2 < s.len() ==> !(s[i1].dir@ == s[i2].dir@ && s[i1].name@ == s[i2].name@)
}

impl View for WatchDescriptor {
    type V = Map<(Seq<char>, Seq<char>), Seq<Masks>>;

    closed spec fn view(&self) -> Map<(Seq<char>, Seq<char>), Seq<Masks>> {
        entries_view(self.entries@)
    }
}

impl WatchDescriptor {
    /// No `(directory, target)` pair occurs twice, and no kind occurs
    /// twice for one pair.
    pub closed spec fn wf(&self) -> bool {
        pairs_unique(self.entries@) && (forall|i: int|
            0 <= i < self.entries@.len() ==> (#[trigger] self.entries@[i].masks@).no_duplicates())
    }

    /// An empty registry.
    pub fn new() -> (r: Self)
        ensures
            r.wf(),
            r@ == Map::<(Seq<char>, Seq<char>), Seq<Masks>>::empty(),
    {
        let r = WatchDescriptor { entries: Vec::new() };
        proof {
            assert(r@ =~= Map::<(Seq<char>, Seq<char>), Seq<Masks>>::empty());
        }
        r
    }

    /// Register the kinds in `masks` for target `file_name` under
    /// directory `dir_path`. The pair's entry is created if absent;
    /// kinds already present are not added again, so the entry is a
    /// true set however often and in whatever batches kinds arrive.
    pub fn insert(&mut self, dir_path: String, file_name: String, masks: Vec<Masks>)
        requires
            old(self).wf(),
        ensures
            final(self).wf(),
            final(self)@ == reg_insert(old(self)@, dir_path@, file_name@, masks@),
    {
        let ghost m0 = self@;
        let found = find_entry(&self.entries, &dir_path, &file_name);
        match found {
            Some(i) => {
                let mut e = self.entries.remove(i);
                append_missing_exec(&mut e.masks, &masks);
                let ghost new_masks = e.masks@;
                self.entries.insert(i, e);
                proof {
                    let s_new = self.entries@;
                    let s_old = old(self).entries@;
                    assert(s_new.len() == s_old.len());
                    assert(forall|q: int|
                        0 <= q < s_old.len() && q != i ==> s_new[q] == s_old[q]);
                    assert(s_new[i as int].masks@ == new_masks);
                    lemma_view_after_update(s_old, s_new, i as int, dir_path@, file_name@, masks@);
                    assert(self@ =~~= reg_insert(m0, dir_path@, file_name@, masks@));
                }
            },
            None => {
                let mut fresh: Vec<Masks> = Vec::new();
                append_missing_exec(&mut fresh, &masks);
                self.entries.push(WatchEntry { dir: dir_path, name: file_name, masks: fresh });
                proof {
                    let s_new = self.entries@;
                    let s_old = old(self).entries@;
                    lemma_view_after_push(s_old, s_new, dir_path@, file_name@, masks@);
                    assert(self@ =~~= reg_insert(m0, dir_path@, file_name@, masks@));
                }
            },
        }
    }
}

impl WatchDescriptor {
    /// The union of the registered kinds over every target under
    /// `dir_path`, listed in canonical order, or `None` if nothing is
    /// registered under that directory. This is exactly the mask that
    /// the directory-level OS watch must carry.
    pub fn get_mask_set_for_directory(&self, dir_path: String) -> (r: Option<Vec<Masks>>)
        requires
            self.wf(),
        ensures
            match r {
                Some(v) => dir_registered(self@, dir_path@) && v@ == sorted_masks_of(
                    masks_union(self@, dir_path@),
                ),
                None => !dir_registered(self@, dir_path@),
            },
    {
        let ghost d = dir_path@;
        let ghost s = self.entries@;
        let mut found = false;
        let mut has_mod = false;
        let mut has_del = false;
        let mut has_cre = false;
        let mut has_und = false;
        let mut t: usize = 0;
        while t < self.entries.len()
            invariant
                0 <= t <= s.len(),
                s == self.entries@,
                d == dir_path@,
                found == exists|q: int| 0 <= q < t && s[q].dir@ == d,
                has_mod == exists|q: int|
                    0 <= q < t && s[q].dir@ == d && (#[trigger] s[q].masks@).contains(
                        Masks::Modified,
                    ),
                has_del == exists|q: int|
                    0 <= q < t && s[q].dir@ == d && (#[trigger] s[q].masks@).contains(
                        Masks::Deleted,
                    ),
                has_cre == exists|q: int|
                    0 <= q < t && s[q].dir@ == d && (#[trigger] s[q].masks@).contains(
                        Masks::Created,
                    ),
                has_und == exists|q: int|
                    0 <= q < t && s[q].dir@ == d && (#[trigger] s[q].masks@).contains(
                        Masks::Undefined,
                    ),
            decreases s.len() - t,
        {
            let ghost found0 = found;
            let ghost mod0 = has_mod;
            let ghost del0 = has_del;
            let ghost cre0 = has_cre;
            let ghost und0 = has_und;
            let e = &self.entries[t];
            let dir_match = e.dir.eq(&dir_path);
            let m_mod = dir_match && masks_contains(&e.masks, Masks::Modified);
            let m_del = dir_match && masks_contains(&e.masks, Masks::Deleted);
            let m_cre = dir_match && masks_contains(&e.masks, Masks::Created);
            let m_und = dir_match && masks_contains(&e.masks, Masks::Undefined);
            found = found || dir_match;
            has_mod = has_mod || m_mod;
            has_del = has_del || m_del;
            has_cre = has_cre || m_cre;
            has_und = has_und || m_und;
            proof {
                let ti = t as int;
                lemma_scan_step(s, d, ti, Masks::Modified, mod0, has_mod);
                lemma_scan_step(s, d, ti, Masks::Deleted, del0, has_del);
                lemma_scan_step(s, d, ti, Masks::Created, cre0, has_cre);
                lemma_scan_step(s, d, ti, Masks::Undefined, und0, has_und);
                assert(found == exists|q: int| 0 <= q < ti + 1 && s[q].dir@ == d) by {
                    if found {
                        if found0 {
                            let q = choose|q: int| 0 <= q < ti && s[q].dir@ == d;
                            assert(0 <= q < ti + 1 && s[q].dir@ == d);
                        } else {
                            assert(0 <= ti < ti + 1 && s[ti].dir@ == d);
                        }
                    } else {
                        if exists|q: int| 0 <= q < ti + 1 && s[q].dir@ == d {
                            let q = choose|q: int| 0 <= q < ti + 1 && s[q].dir@ == d;
                            assert(q < ti);
                        }
                    }
                }
            }
            t = t + 1;
        }
        proof {
            lemma_scan_union(s, d, found, has_mod, has_del, has_cre, has_und);
        }
        if !found {
            return None;
        }
        let mut v: Vec<Masks> = Vec::new();
        if has_mod {
            v.push(Masks::Modified);
        }
        if has_del {
            v.push(Masks::Deleted);
        }
        if has_cre {
            v.push(Masks::Created);
        }
        if has_und {
            v.push(Masks::Undefined);
        }
        proof {
            assert(v@ =~= sorted_masks_of(masks_union(entries_view(s), d)));
        }
        Some(v)
    }
}

/// One step of the union scan: taking entry `ti` into account extends
/// the range of the flag's witness by one.
proof fn lemma_scan_step(s: Seq<WatchEntry>, d: Seq<char>, ti: int, k: Masks, flag0: bool, flag1: bool)
    requires
        0 <= ti < s.len(),
        flag0 == exists|q: int|
            0 <= q < ti && s[q].dir@ == d && (#[trigger] s[q].masks@).contains(k),
        flag1 == (flag0 || (s[ti].dir@ == d && s[ti].masks@.contains(k))),
    ensures
        flag1 == exists|q: int|
            0 <= q < ti + 1 && s[q].dir@ == d && (#[trigger] s[q].masks@).contains(k),
{
    if flag1 {
        if flag0 {
            let q = choose|q: int|
                0 <= q < ti && s[q].dir@ == d && (#[trigger] s[q].masks@).contains(k);
            assert(0 <= q < ti + 1 && s[q].dir@ == d && s[q].masks@.contains(k));
        } else {
            assert(0 <= ti < ti + 1 && s[ti].dir@ == d && s[ti].masks@.contains(k));
        }
    } else {
        if exists|q: int| 0 <= q < ti + 1 && s[q].dir@ == d && (#[trigger] s[q].masks@).contains(k) {
            let q = choose|q: int|
                0 <= q < ti + 1 && s[q].dir@ == d && (#[trigger] s[q].masks@).contains(k);
            assert(q < ti);
        }
    }
}

/// Connect the index-level scan of the entries to the view-level union:
/// a directory is registered exactly when some entry names it, and each
/// kind is in the union exactly when some entry for the directory holds
/// it.
proof fn lemma_scan_union(
    s: Seq<WatchEntry>,
    d: Seq<char>,
    found: bool,
    has_mod: bool,
    has_del: bool,
    has_cre: bool,
    has_und: bool,
)
    requires
        pairs_unique(s),
        found == exists|q: int| 0 <= q < s.len() && s[q].dir@ == d,
        has_mod == exists|q: int|
            0 <= q < s.len() && s[q].dir@ == d && (#[trigger] s[q].masks@).contains(Masks::Modified),
        has_del == exists|q: int|
            0 <= q < s.len() && s[q].dir@ == d && (#[trigger] s[q].masks@).contains(Masks::Deleted),
        has_cre == exists|q: int|
            0 <= q < s.len() && s[q].dir@ == d && (#[trigger] s[q].masks@).contains(Masks::Created),
        has_und == exists|q: int|
            0 <= q < s.len() && s[q].dir@ == d && (#[trigger] s[q].masks@).contains(
                Masks::Undefined,
            ),
    ensures
        found == dir_registered(entries_view(s), d),
        has_mod == masks_union(entries_view(s), d).contains(Masks::Modified),
        has_del == masks_union(entries_view(s), d).contains(Masks::Deleted),
        has_cre == masks_union(entries_view(s), d).contains(Masks::Created),
        has_und == masks_union(entries_view(s), d).contains(Masks::Undefined),
{
    let v = entries_view(s);
    assert forall|k: Masks|
        masks_union(v, d).contains(k) <==> (exists|q: int|
            0 <= q < s.len() && s[q].dir@ == d && (#[trigger] s[q].masks@).contains(k)) by {
        if masks_union(v, d).contains(k) {
            let f = choose|f: Seq<char>| #[trigger] v.dom().contains((d, f)) && v[(d, f)].contains(
                k,
            );
            let q = choose|q: int| 0 <= q < s.len() && s[q].dir@ == d && s[q].name@ == f;
            assert(0 <= q < s.len() && s[q].dir@ == d && s[q].name@ == f);
            lemma_masks_at_unique(s, q);
            assert(s[q].masks@.contains(k));
        }
        if exists|q: int|
            0 <= q < s.len() && s[q].dir@ == d && (#[trigger] s[q].masks@).contains(k) {
            let q = choose|q: int|
                0 <= q < s.len() && s[q].dir@ == d && (#[trigger] s[q].masks@).contains(k);
            let f = s[q].name@;
            assert(has_entry(s, d, f));
            lemma_masks_at_unique(s, q);
            assert(v.dom().contains((d, f)) && v[(d, f)].contains(k));
        }
    }
    if found {
        let q = choose|q: int| 0 <= q < s.len() && s[q].dir@ == d;
        assert(0 <= q < s.len() && s[q].dir@ == d);
        let f = s[q].name@;
        assert(has_entry(s, d, f));
        assert(v.dom().contains((d, f)));
    }
    if dir_registered(v, d) {
        let f = choose|f: Seq<char>| v.dom().contains((d, f));
        let q = choose|q: int| 0 <= q < s.len() && s[q].dir@ == d && s[q].name@ == f;
        assert(0 <= q < s.len() && s[q].dir@ == d);
    }
}

/// `d` and `f` joined into one path: a `/` separates them unless `d`
/// already ends with one.
pub open spec fn join_path(d: Seq<char>, f: Seq<char>) -> Seq<char> {
    if d.len() > 0 && d.last() == '/' {
        d + f
    } else {
        d + seq!['/'] + f
    }
}

/// `s` with every trailing `/` removed.
pub open spec fn strip_trailing_slashes(s: Seq<char>) -> Seq<char>
    decreases s.len(),
{
    if s.len() > 0 && s.last() == '/' {
        strip_trailing_slashes(s.drop_last())
    } else {
        s
    }
}

/// The index of the last `/` in `s`, or `-1` if there is none.
pub open spec fn last_slash_idx(s: Seq<char>) -> int
    decreases s.len(),
{
    if s.len() == 0 {
        -1
    } else if s.last() == '/' {
        s.len() - 1
    } else {
        last_slash_idx(s.drop_last())
    }
}

/// What normalisation computes: the joined path split into the parent
/// directory that the OS watch must be placed on and the bare file name
/// to match against reported events. `None` when no parent directory or
/// no non-empty final component can be extracted (for instance a root
/// of `/` with an empty file specification).
pub open spec fn normalize_spec(d: Seq<char>, f: Seq<char>) -> Option<(Seq<char>, Seq<char>)> {
    let core = strip_trailing_slashes(join_path(d, f));
    if core.len() == 0 || last_slash_idx(core) < 0 {
        None
    } else {
        let i = last_slash_idx(core);
        let parent = if i == 0 {
            seq!['/']
        } else {
            core.subrange(0, i)
        };
        Some((parent, core.subrange(i + 1, core.len() as int)))
    }
}

/// Join `candidate_watch_dir` and `candidate_file` and split the result
/// into its parent directory and final component.
///
/// A caller may thus request a watch on `subdir/file` relative to a
/// root directory: the OS watch ends up correctly placed on
/// `root/subdir`, matching on `file`. The inputs are expected to
/// describe an absolute location; a joined path with no `/` left in
/// front of the final component is rejected rather than guessed at.
pub fn normalising_watch_dir_and_file(candidate_watch_dir: &str, candidate_file: &str) -> (r:
    Result<(String, String), NotifyStreamError>)
    ensures
        match r {
            Ok(p) => normalize_spec(candidate_watch_dir@, candidate_file@) == Some(
                (p.0@, p.1@),
            ),
            Err(e) => normalize_spec(candidate_watch_dir@, candidate_file@) is None && (
            e matches NotifyStreamError::ErrorNormalisingWatcher { path } && path@ == join_path(
                candidate_watch_dir@,
                candidate_file@,
            )),
        },
{
    let ghost d = candidate_watch_dir@;
    let ghost f = candidate_file@;
    let dlen = candidate_watch_dir.unicode_len();
    let mut full = candidate_watch_dir.to_owned();
    if !(dlen > 0 && candidate_watch_dir.get_char(dlen - 1) == '/') {
        full.append("/");
        proof {
            reveal_strlit("/");
            assert("/"@ =~= seq!['/']);
        }
    }
    full.append(candidate_file);
    proof {
        assert(full@ == join_path(d, f));
    }
    let ghost joined = full@;
    let flen = full.as_str().unicode_len();
    let mut end = flen;
    proof {
        assert(joined.take(flen as int) =~= joined);
    }
    while end > 0 && full.as_str().get_char(end - 1) == '/'
        invariant
            0 <= end <= joined.len(),
            full@ == joined,
            strip_trailing_slashes(joined.take(end as int)) == strip_trailing_slashes(joined),
        decreases end,
    {
        proof {
            assert(joined.take(end as int).last() == joined[end - 1]);
            assert(joined.take(end as int).drop_last() =~= joined.take(end - 1));
        }
        end = end - 1;
    }
    proof {
        if end > 0 {
            assert(joined.take(end as int).last() == joined[end - 1]);
            assert(strip_trailing_slashes(joined.take(end as int)) == joined.take(end as int));
        } else {
            assert(joined.take(0) =~= Seq::<char>::empty());
        }
    }
    let ghost core = strip_trailing_slashes(joined);
    if end == 0 {
        return Err(NotifyStreamError::ErrorNormalisingWatcher { path: full });
    }
    let mut j = end;
    while j > 0 && full.as_str().get_char(j - 1) != '/'
        invariant
            0 <= j <= end <= joined.len(),
            full@ == joined,
            core == joined.take(end as int),
            forall|k: int| j <= k < end ==> joined[k] != '/',
        decreases j,
    {
        j = j - 1;
    }
    proof {
        lemma_last_slash_suffix(core, j as int);
        assert(core.take(j as int) =~= joined.take(j as int));
    }
    if j == 0 {
        proof {
            assert(last_slash_idx(core) == last_slash_idx(Seq::<char>::empty())) by {
                assert(core.take(0) =~= Seq::<char>::empty());
            }
        }
        return Err(NotifyStreamError::ErrorNormalisingWatcher { path: full });
    }
    proof {
        assert(joined.take(j as int).last() == joined[j - 1]);
        assert(joined[j - 1] == '/');
        assert(last_slash_idx(core) == j - 1);
    }
    let name = full.as_str().substring_char(j, end).to_owned();
    let parent = if j == 1 {
        let p = "/".to_owned();
        proof {
            reveal_strlit("/");
            assert(p@ =~= seq!['/']);
        }
        p
    } else {
        full.as_str().substring_char(0, j - 1).to_owned()
    };
    proof {
        assert(name@ =~= core.subrange(j as int, core.len() as int));
        if j != 1 {
            assert(parent@ =~= core.subrange(0, j - 1));
        }
    }
    Ok((parent, name))
}

/// If no `/` occurs in `s` at or after position `j`, the last `/` of
/// `s` is the last `/` of its first `j` characters.
proof fn lemma_last_slash_suffix(s: Seq<char>, j: int)
    requires
        0 <= j <= s.len(),
        forall|k: int| j <= k < s.len() ==> s[k] != '/',
    ensures
        last_slash_idx(s) == last_slash_idx(s.take(j)),
    decreases s.len(),
{
    if s.len() == j {
        assert(s.take(j) =~= s);
    } else {
        assert(s.last() != '/');
        lemma_last_slash_suffix(s.drop_last(), j);
        assert(s.drop_last().take(j) =~= s.take(j));
    }
}

/// The reserved target that matches any file name reported for its
/// directory.
pub open spec fn wildcard() -> Seq<char> {
    seq!['*']
}

/// Whether the registered target `f` justifies emitting an event for a
/// raw event in directory `d` about file `n` with kind `k`: the target
/// is registered under `d` with `k` among its kinds, and it either
/// names `n` exactly or is the wildcard.
pub open spec fn is_match(
    m: Map<(Seq<char>, Seq<char>), Seq<Masks>>,
    d: Seq<char>,
    n: Seq<char>,
    k: Masks,
    f: Seq<char>,
) -> bool {
    m.dom().contains((d, f)) && m[(d, f)].contains(k) && (f == n || f == wildcard())
}

/// All targets that justify emitting an event for `(d, n, k)`.
pub open spec fn matching_targets(
    m: Map<(Seq<char>, Seq<char>), Seq<Masks>>,
    d: Seq<char>,
    n: Seq<char>,
    k: Masks,
) -> Set<Seq<char>> {
    Set::new(|f: Seq<char>| is_match(m, d, n, k, f))
}

/// How many semantic events one raw event `(d, n, k)` yields: one per
/// matching target, duplicates across exact and wildcard registrations
/// intended.
pub open spec fn match_count(
    m: Map<(Seq<char>, Seq<char>), Seq<Masks>>,
    d: Seq<char>,
    n: Seq<char>,
    k: Masks,
) -> nat {
    matching_targets(m, d, n, k).len()
}

/// Whether entry `q` of `s` justifies emitting an event for `(d, n, k)`.
spec fn entry_matches(s: Seq<WatchEntry>, q: int, d: Seq<char>, n: Seq<char>, k: Masks) -> bool {
    &&& 0 <= q < s.len()
    &&& s[q].dir@ == d
    &&& s[q].masks@.contains(k)
    &&& (s[q].name@ == n || s[q].name@ == wildcard())
}

/// Join `dir` and `file` into one path, separated by `/` unless `dir`
/// already ends with one.
pub fn join_dir_file(dir: &str, file: &str) -> (r: String)
    ensures
        r@ == join_path(dir@, file@),
{
    let dlen = dir.unicode_len();
    let mut full = dir.to_owned();
    if !(dlen > 0 && dir.get_char(dlen - 1) == '/') {
        full.append("/");
        proof {
            reveal_strlit("/");
            assert("/"@ =~= seq!['/']);
        }
    }
    full.append(file);
    full
}

impl WatchDescriptor {
    /// The semantic events that a raw event justifies: one per
    /// registered target under `event_dir` that names `file_name`
    /// exactly or is the wildcard and holds `kind` among its kinds.
    /// Every emitted event carries the joined path of the directory and
    /// the reported file name, and the translated kind. An exact and a
    /// wildcard registration matching the same raw event both fire:
    /// that duplication is intended.
    pub fn match_event(&self, event_dir: &str, file_name: &str, kind: Masks) -> (r: Vec<
        (String, Masks),
    >)
        requires
            self.wf(),
        ensures
            r@.len() == match_count(self@, event_dir@, file_name@, kind),
            forall|i: int|
                0 <= i < r@.len() ==> (#[trigger] r@[i]).0@ == join_path(event_dir@, file_name@)
                    && r@[i].1 == kind,
    {
        let ghost s = self.entries@;
        let ghost d = event_dir@;
        let ghost n = file_name@;
        let path = join_dir_file(event_dir, file_name);
        let ed = event_dir.to_owned();
        let fns = file_name.to_owned();
        let star = "*".to_owned();
        proof {
            reveal_strlit("*");
            assert(star@ =~= wildcard());
        }
        let mut r: Vec<(String, Masks)> = Vec::new();
        let ghost mut fs: Seq<Seq<char>> = Seq::empty();
        let mut t: usize = 0;
        while t < self.entries.len()
            invariant
                0 <= t <= s.len(),
                s == self.entries@,
                self.wf(),
                d == ed@,
                n == fns@,
                star@ == wildcard(),
                path@ == join_path(d, n),
                fs.no_duplicates(),
                forall|f: Seq<char>|
                    fs.contains(f) <==> exists|q: int|
                        0 <= q < t && #[trigger] entry_matches(s, q, d, n, kind) && s[q].name@ == f,
                r@.len() == fs.len(),
                forall|i: int|
                    0 <= i < r@.len() ==> (#[trigger] r@[i]).0@ == join_path(d, n) && r@[i].1
                        == kind,
            decreases s.len() - t,
        {
            let ghost fs0 = fs;
            let e = &self.entries[t];
            let dm = e.dir.eq(&ed);
            let exact = e.name.eq(&fns);
            let wild = e.name.eq(&star);
            let km = masks_contains(&e.masks, kind);
            if dm && (exact || wild) && km {
                r.push((path.clone(), kind));
                proof {
                    fs = fs.push(s[t as int].name@);
                }
            }
            proof {
                lemma_match_scan_step(s, d, n, kind, t as int, fs0, fs);
            }
            t = t + 1;
        }
        proof {
            lemma_match_scan_total(s, d, n, kind, fs);
            fs.unique_seq_to_set();
        }
        r
    }
}

/// One step of the match scan: taking entry `ti` into account extends
/// the range of the collected matching targets by one, and keeps them
/// free of duplicates.
proof fn lemma_match_scan_step(
    s: Seq<WatchEntry>,
    d: Seq<char>,
    n: Seq<char>,
    k: Masks,
    ti: int,
    fs0: Seq<Seq<char>>,
    fs1: Seq<Seq<char>>,
)
    requires
        pairs_unique(s),
        0 <= ti < s.len(),
        fs0.no_duplicates(),
        forall|f: Seq<char>|
            fs0.contains(f) <==> exists|q: int|
                0 <= q < ti && #[trigger] entry_matches(s, q, d, n, k) && s[q].name@ == f,
        fs1 == if entry_matches(s, ti, d, n, k) {
            fs0.push(s[ti].name@)
        } else {
            fs0
        },
    ensures
        fs1.no_duplicates(),
        forall|f: Seq<char>|
            fs1.contains(f) <==> exists|q: int|
                0 <= q < ti + 1 && #[trigger] entry_matches(s, q, d, n, k) && s[q].name@ == f,
{
    if entry_matches(s, ti, d, n, k) {
        let x = s[ti].name@;
        assert(!fs0.contains(x)) by {
            if fs0.contains(x) {
                let q = choose|q: int|
                    0 <= q < ti && #[trigger] entry_matches(s, q, d, n, k) && s[q].name@ == x;
                assert(!(s[q].dir@ == s[ti].dir@ && s[q].name@ == s[ti].name@));
            }
        }
        assert(fs1.drop_last() =~= fs0);
        assert(fs1.no_duplicates()) by {
            assert forall|i1: int, i2: int| 0 <= i1 < i2 < fs1.len() implies fs1[i1]
                != fs1[i2] by {
                if i2 < fs1.len() - 1 {
                    assert(fs1[i1] == fs0[i1] && fs1[i2] == fs0[i2]);
                } else {
                    assert(fs1[i1] == fs0[i1]);
                    assert(fs0.contains(fs0[i1]));
                }
            }
        }
        assert forall|f: Seq<char>|
            fs1.contains(f) <==> exists|q: int|
                0 <= q < ti + 1 && #[trigger] entry_matches(s, q, d, n, k) && s[q].name@ == f by {
            if fs1.contains(f) {
                let i = choose|i: int| 0 <= i < fs1.len() && fs1[i] == f;
                if i < fs1.len() - 1 {
                    assert(fs0[i] == f);
                    assert(fs0.contains(f));
                    let q = choose|q: int|
                        0 <= q < ti && #[trigger] entry_matches(s, q, d, n, k) && s[q].name@ == f;
                    assert(0 <= q < ti + 1 && entry_matches(s, q, d, n, k) && s[q].name@ == f);
                } else {
                    assert(f == x);
                    assert(0 <= ti < ti + 1 && entry_matches(s, ti, d, n, k) && s[ti].name@ == f);
                }
            }
            if exists|q: int|
                0 <= q < ti + 1 && #[trigger] entry_matches(s, q, d, n, k) && s[q].name@ == f {
                let q = choose|q: int|
                    0 <= q < ti + 1 && #[trigger] entry_matches(s, q, d, n, k) && s[q].name@ == f;
                if q < ti {
                    assert(fs0.contains(f));
                    let i = choose|i: int| 0 <= i < fs0.len() && fs0[i] == f;
                    assert(fs1[i] == f);
                } else {
                    assert(fs1.last() == f);
                }
            }
        }
    } else {
        assert forall|f: Seq<char>|
            fs1.contains(f) <==> exists|q: int|
                0 <= q < ti + 1 && #[trigger] entry_matches(s, q, d, n, k) && s[q].name@ == f by {
            if exists|q: int|
                0 <= q < ti + 1 && #[trigger] entry_matches(s, q, d, n, k) && s[q].name@ == f {
                let q = choose|q: int|
                    0 <= q < ti + 1 && #[trigger] entry_matches(s, q, d, n, k) && s[q].name@ == f;
                assert(q < ti);
            }
        }
    }
}

/// The targets collected by the full match scan are exactly the
/// matching targets of the view.
proof fn lemma_match_scan_total(
    s: Seq<WatchEntry>,
    d: Seq<char>,
    n: Seq<char>,
    k: Masks,
    fs: Seq<Seq<char>>,
)
    requires
        pairs_unique(s),
        forall|f: Seq<char>|
            fs.contains(f) <==> exists|q: int|
                0 <= q < s.len() && #[trigger] entry_matches(s, q, d, n, k) && s[q].name@ == f,
    ensures
        fs.to_set() == matching_targets(entries_view(s), d, n, k),
{
    let v = entries_view(s);
    assert forall|f: Seq<char>| fs.to_set().contains(f) <==> matching_targets(
        v,
        d,
        n,
        k,
    ).contains(f) by {
        if fs.to_set().contains(f) {
            assert(fs.contains(f));
            let q = choose|q: int|
                0 <= q < s.len() && #[trigger] entry_matches(s, q, d, n, k) && s[q].name@ == f;
            assert(has_entry(s, d, f)) by {
                assert(0 <= q < s.len() && s[q].dir@ == d && s[q].name@ == f);
            }
            lemma_masks_at_unique(s, q);
            assert(v.dom().contains((d, f)) && v[(d, f)].contains(k));
        }
        if matching_targets(v, d, n, k).contains(f) {
            assert(is_match(v, d, n, k, f));
            let q = choose|q: int| 0 <= q < s.len() && s[q].dir@ == d && s[q].name@ == f;
            assert(0 <= q < s.len() && s[q].dir@ == d && s[q].name@ == f);
            lemma_masks_at_unique(s, q);
            assert(entry_matches(s, q, d, n, k));
            assert(fs.contains(f));
            assert(fs.to_set().contains(f));
        }
    }
    assert(fs.to_set() =~= matching_targets(v, d, n, k));
}

/// What the OS facility must be told after a registration: place (or
/// re-place) a directory-level watch on `dir` with the kind bits
/// `mask_bits`.
pub struct WatchRequest {
    pub dir: String,
    pub mask_bits: u32,
}

/// One unfiltered notification from the OS facility: the native kind
/// bitmask and the name of the file the event is about, if the event
/// carries one.
pub struct RawEvent {
    pub mask_bits: u32,
    pub name: Option<String>,
}

/// What the consumer loop must do with one poll outcome.
pub enum StreamAction {
    /// Yield these semantic events, then poll again.
    Emit(Vec<(String, Masks)>),
    /// Yield this error once as the final item; poll no further.
    Terminate(NotifyStreamError),
    /// The OS facility reported the end of its event sequence: stop.
    Closed,
}

impl WatchDescriptor {
    /// Register interest in `file` (an exact name, possibly with
    /// leading path components, or the wildcard `"*"`) under the
    /// directory `dir_path`, for the kinds in `masks`.
    ///
    /// On success the registry has accumulated the kinds for the
    /// normalised `(directory, target)` pair, and the returned request
    /// carries the directory the OS watch must be placed on together
    /// with the full kind union over every target registered under it —
    /// re-registering an already-watched directory with the widened
    /// mask only widens what the OS reports. Only normalisation can
    /// fail, and then the registry is unchanged.
    pub fn add_watcher(&mut self, dir_path: &str, file: &str, masks: &Vec<Masks>) -> (r: Result<
        WatchRequest,
        NotifyStreamError,
    >)
        requires
            old(self).wf(),
        ensures
            final(self).wf(),
            match r {
                Ok(req) => normalize_spec(dir_path@, file@) matches Some(norm) && {
                    &&& final(self)@ == reg_insert(old(self)@, norm.0, norm.1, masks@)
                    &&& req.dir@ == norm.0
                    &&& req.mask_bits == spec_pipe_masks(
                        sorted_masks_of(masks_union(final(self)@, norm.0)),
                    )
                },
                Err(e) => {
                    &&& normalize_spec(dir_path@, file@) is None
                    &&& *final(self) == *old(self)
                    &&& (e matches NotifyStreamError::ErrorNormalisingWatcher { path } && path@
                        == join_path(dir_path@, file@))
                },
            },
    {
        let normalized = normalising_watch_dir_and_file(dir_path, file)?;
        let (nd, nf) = normalized;
        self.insert(nd.clone(), nf, copy_masks(masks));
        let union = self.get_mask_set_for_directory(nd.clone());
        proof {
            assert(dir_registered(self@, nd@)) by {
                assert(self@.dom().contains((nd@, normalize_spec(dir_path@, file@)->Some_0.1)));
            }
        }
        let mask_vec = union.unwrap();
        let bits = pipe_masks_into_watch_mask(&mask_vec);
        Ok(WatchRequest { dir: nd, mask_bits: bits })
    }

    /// The consumer's decision for one poll outcome, against this
    /// (frozen) registry. `polled` is what the OS facility handed back:
    /// nothing (its event sequence ended), a failure with its message,
    /// or a raw event together with the directory it was reported
    /// against.
    ///
    /// A failure always terminates the stream with the corresponding
    /// error as the one final item. A raw event without a file name
    /// yields nothing (directory watches always stand in for per-file
    /// targets here). A raw event with a file name yields exactly the
    /// events that `match_event` justifies, whatever kind the bitmask
    /// translates to.
    pub fn handle_poll(&self, polled: Option<Result<(String, RawEvent), String>>) -> (r:
        StreamAction)
        requires
            self.wf(),
        ensures
            match polled {
                None => r is Closed,
                Some(res) => match res {
                    Err(msg) => r matches StreamAction::Terminate(e) && (
                    e matches NotifyStreamError::FromIOError(m) && m@ == msg@),
                    Ok(ev) => r matches StreamAction::Emit(v) && (match ev.1.name {
                        None => v@.len() == 0,
                        Some(nm) => {
                            let k = spec_from_event_mask_bits(ev.1.mask_bits);
                            &&& v@.len() == match_count(self@, ev.0@, nm@, k)
                            &&& forall|i: int|
                                0 <= i < v@.len() ==> (#[trigger] v@[i]).0@ == join_path(
                                    ev.0@,
                                    nm@,
                                ) && v@[i].1 == k
                        },
                    }),
                },
            },
    {
        match polled {
            None => StreamAction::Closed,
            Some(res) => match res {
                Err(msg) => StreamAction::Terminate(NotifyStreamError::FromIOError(msg)),
                Ok(ev) => {
                    let (event_dir, raw) = ev;
                    match raw.name {
                        None => StreamAction::Emit(Vec::new()),
                        Some(nm) => {
                            let kind = Masks::from_event_mask_bits(raw.mask_bits);
                            StreamAction::Emit(
                                self.match_event(event_dir.as_str(), nm.as_str(), kind),
                            )
                        },
                    }
                },
            },
        }
    }
}

impl WatchDescriptor {
    /// The kinds registered for the exact `(directory, target)` pair,
    /// in registration order, or `None` if the pair is not registered.
    pub fn get_masks(&self, dir_path: &str, file_name: &str) -> (r: Option<Vec<Masks>>)
        requires
            self.wf(),
        ensures
            match r {
                Some(v) => self@.dom().contains((dir_path@, file_name@)) && v@ == self@[
                    (dir_path@, file_name@)
                ] && v@.no_duplicates(),
                None => !self@.dom().contains((dir_path@, file_name@)),
            },
    {
        let d = dir_path.to_owned();
        let f = file_name.to_owned();
        match find_entry(&self.entries, &d, &f) {
            Some(i) => {
                let v = copy_masks(&self.entries[i].masks);
                proof {
                    assert(has_entry(self.entries@, dir_path@, file_name@)) by {
                        assert(self.entries@[i as int].dir@ == dir_path@
                            && self.entries@[i as int].name@ == file_name@);
                    }
                    lemma_masks_at_unique(self.entries@, i as int);
                    assert(self.entries@[i as int].masks@.no_duplicates());
                }
                Some(v)
            },
            None => {
                proof {
                    if has_entry(self.entries@, dir_path@, file_name@) {
                        let q = choose|q: int|
                            0 <= q < self.entries@.len() && self.entries@[q].dir@ == dir_path@
                                && self.entries@[q].name@ == file_name@;
                        assert(0 <= q < self.entries@.len() && self.entries@[q].dir@ == dir_path@
                            && self.entries@[q].name@ == file_name@);
                    }
                }
                None
            },
        }
    }
}

/// A copy of a kind vector.
fn copy_masks(v: &Vec<Masks>) -> (r: Vec<Masks>)
    ensures
        r@ == v@,
{
    let mut r: Vec<Masks> = Vec::new();
    let mut i: usize = 0;
    while i < v.len()
        invariant
            0 <= i <= v@.len(),
            r@ == v@.take(i as int),
        decreases v@.len() - i,
    {
        r.push(v[i]);
        proof {
            assert(v@.take(i + 1 as int) =~= v@.take(i as int).push(v@[i as int]));
        }
        i = i + 1;
    }
    proof {
        assert(v@.take(v@.len() as int) =~= v@);
    }
    r
}

/// A kind already present is kept through the accumulation.
proof fn lemma_append_missing_preserves(s: Seq<Masks>, ks: Seq<Masks>, k: Masks)
    requires
        s.contains(k),
    ensures
        append_missing(s, ks).contains(k),
    decreases ks.len(),
{
    if ks.len() > 0 {
        let s1 = if s.contains(ks[0]) {
            s
        } else {
            s.push(ks[0])
        };
        assert(s1.contains(k)) by {
            let i = choose|i: int| 0 <= i < s.len() && s[i] == k;
            assert(s1[i] == k);
        }
        lemma_append_missing_preserves(s1, ks.drop_first(), k);
    }
}

/// A kind in the batch ends up present after the accumulation.
proof fn lemma_append_missing_adds(s: Seq<Masks>, ks: Seq<Masks>, k: Masks)
    requires
        ks.contains(k),
    ensures
        append_missing(s, ks).contains(k),
    decreases ks.len(),
{
    let s1 = if s.contains(ks[0]) {
        s
    } else {
        s.push(ks[0])
    };
    if ks[0] == k {
        assert(s1.contains(k)) by {
            if s.contains(k) {
                let i = choose|i: int| 0 <= i < s.len() && s[i] == k;
                assert(s1[i] == k);
            } else {
                assert(s1.last() == k);
            }
        }
        lemma_append_missing_preserves(s1, ks.drop_first(), k);
    } else {
        assert(ks.drop_first().contains(k)) by {
            let i = choose|i: int| 0 <= i < ks.len() && ks[i] == k;
            assert(ks.drop_first()[i - 1] == k);
        }
        lemma_append_missing_adds(s1, ks.drop_first(), k);
    }
}

/// Accumulating a batch whose kinds are all present already changes
/// nothing.
proof fn lemma_append_missing_noop(s: Seq<Masks>, ks: Seq<Masks>)
    requires
        forall|k: Masks| ks.contains(k) ==> s.contains(k),
    ensures
        append_missing(s, ks) == s,
    decreases ks.len(),
{
    if ks.len() > 0 {
        assert(s.contains(ks[0])) by {
            assert(ks.contains(ks[0]));
        }
        assert(forall|k: Masks| ks.drop_first().contains(k) ==> s.contains(k)) by {
            assert forall|k: Masks| ks.drop_first().contains(k) implies s.contains(k) by {
                let i = choose|i: int| 0 <= i < ks.drop_first().len() && ks.drop_first()[i] == k;
                assert(ks[i + 1] == k);
                assert(ks.contains(k));
            }
        }
        lemma_append_missing_noop(s, ks.drop_first());
    }
}

/// Registering the same kinds for the same `(directory, target)` pair a
/// second time leaves the registry exactly as it was after the first
/// registration: insertion is idempotent, and a kind-set never holds a
/// kind twice.
pub proof fn lemma_insert_idempotent(
    m: Map<(Seq<char>, Seq<char>), Seq<Masks>>,
    d: Seq<char>,
    f: Seq<char>,
    ks: Seq<Masks>,
)
    ensures
        reg_insert(reg_insert(m, d, f, ks), d, f, ks) == reg_insert(m, d, f, ks),
{
    let m1 = reg_insert(m, d, f, ks);
    let prev = if m.dom().contains((d, f)) {
        m[(d, f)]
    } else {
        Seq::<Masks>::empty()
    };
    let v1 = append_missing(prev, ks);
    assert(m1[(d, f)] == v1);
    assert(forall|k: Masks| ks.contains(k) ==> #[trigger] v1.contains(k)) by {
        assert forall|k: Masks| ks.contains(k) implies #[trigger] v1.contains(k) by {
            lemma_append_missing_adds(prev, ks, k);
        }
    }
    lemma_append_missing_noop(v1, ks);
    assert(reg_insert(m1, d, f, ks) =~= m1);
}

/// Evaluation helper: accumulating one kind is a single conditional
/// push.
proof fn lemma_append_missing_one(s: Seq<Masks>, k: Masks)
    ensures
        append_missing(s, seq![k]) == (if s.contains(k) {
            s
        } else {
            s.push(k)
        }),
{
    let ks = seq![k];
    let s1 = if s.contains(k) {
        s
    } else {
        s.push(k)
    };
    assert(ks.drop_first() =~= Seq::<Masks>::empty());
    assert(append_missing(s, ks) == append_missing(s1, ks.drop_first()));
}

/// Registering `Created` on one target and `Created` with `Modified`
/// on another under the same directory leaves the directory's mask
/// union at exactly `Created` and `Modified`: nothing is lost to
/// overwriting, and no kind nobody asked for is added.
pub proof fn lemma_mask_union(d: Seq<char>, a: Seq<char>, b: Seq<char>)
    ensures
        ({
            let m = reg_insert(
                reg_insert(Map::empty(), d, a, seq![Masks::Created]),
                d,
                b,
                seq![Masks::Created, Masks::Modified],
            );
            masks_union(m, d) =~= set![Masks::Created, Masks::Modified]
        }),
{
    let m0 = Map::<(Seq<char>, Seq<char>), Seq<Masks>>::empty();
    let m1 = reg_insert(m0, d, a, seq![Masks::Created]);
    let m = reg_insert(m1, d, b, seq![Masks::Created, Masks::Modified]);
    lemma_append_missing_one(Seq::<Masks>::empty(), Masks::Created);
    let va = seq![Masks::Created];
    assert(m1[(d, a)] == va) by {
        assert(append_missing(Seq::<Masks>::empty(), seq![Masks::Created]) =~= va);
    }
    let prev_b = if m1.dom().contains((d, b)) {
        m1[(d, b)]
    } else {
        Seq::<Masks>::empty()
    };
    let ks2 = seq![Masks::Created, Masks::Modified];
    let vb = m[(d, b)];
    assert(vb == append_missing(prev_b, ks2));
    assert(vb.contains(Masks::Created) && vb.contains(Masks::Modified)) by {
        lemma_append_missing_adds(prev_b, ks2, Masks::Created);
        lemma_append_missing_adds(prev_b, ks2, Masks::Modified);
        assert(ks2[0] == Masks::Created && ks2[1] == Masks::Modified);
        assert(ks2.contains(Masks::Created) && ks2.contains(Masks::Modified));
    }
    assert(!va.contains(Masks::Deleted) && !va.contains(Masks::Undefined) && !va.contains(
        Masks::Modified,
    )) by {
        assert(forall|i: int| 0 <= i < va.len() ==> va[i] == Masks::Created);
    }
    assert(prev_b == Seq::<Masks>::empty() || prev_b == va);
    assert(!vb.contains(Masks::Deleted) && !vb.contains(Masks::Undefined)) by {
        assert(!prev_b.contains(Masks::Deleted) && !prev_b.contains(Masks::Undefined));
        assert(!ks2.contains(Masks::Deleted) && !ks2.contains(Masks::Undefined)) by {
            assert(forall|i: int|
                0 <= i < ks2.len() ==> ks2[i] == Masks::Created || ks2[i] == Masks::Modified);
        }
        lemma_append_missing_only(prev_b, ks2, Masks::Deleted);
        lemma_append_missing_only(prev_b, ks2, Masks::Undefined);
    }
    assert forall|k: Masks| #[trigger] masks_union(m, d).contains(k) implies (k == Masks::Created
        || k == Masks::Modified) by {
        let f = choose|f: Seq<char>| #[trigger] m.dom().contains((d, f)) && m[(d, f)].contains(k);
        assert(f == a || f == b);
    }
    assert(masks_union(m, d).contains(Masks::Created)) by {
        assert(m.dom().contains((d, b)) && m[(d, b)].contains(Masks::Created));
    }
    assert(masks_union(m, d).contains(Masks::Modified)) by {
        assert(m.dom().contains((d, b)) && m[(d, b)].contains(Masks::Modified));
    }
}

/// A kind neither present nor in the batch stays absent.
proof fn lemma_append_missing_only(s: Seq<Masks>, ks: Seq<Masks>, k: Masks)
    requires
        !s.contains(k),
        !ks.contains(k),
    ensures
        !append_missing(s, ks).contains(k),
    decreases ks.len(),
{
    if ks.len() > 0 {
        assert(ks.contains(ks[0]));
        let s1 = if s.contains(ks[0]) {
            s
        } else {
            s.push(ks[0])
        };
        assert(!s1.contains(k)) by {
            if s1.contains(k) {
                let i = choose|i: int| 0 <= i < s1.len() && s1[i] == k;
                if i < s.len() {
                    assert(s[i] == k);
                } else {
                    assert(s1[i] == ks[0]);
                }
            }
        }
        assert(!ks.drop_first().contains(k)) by {
            if ks.drop_first().contains(k) {
                let i = choose|i: int| 0 <= i < ks.drop_first().len() && ks.drop_first()[i] == k;
                assert(ks[i + 1] == k);
            }
        }
        lemma_append_missing_only(s1, ks.drop_first(), k);
    }
}

/// A kind that came out of the accumulation went in: it was present
/// before or stood in the batch.
proof fn lemma_append_missing_source(s: Seq<Masks>, ks: Seq<Masks>, k: Masks)
    requires
        append_missing(s, ks).contains(k),
    ensures
        s.contains(k) || ks.contains(k),
    decreases ks.len(),
{
    if ks.len() > 0 {
        let s1 = if s.contains(ks[0]) {
            s
        } else {
            s.push(ks[0])
        };
        lemma_append_missing_source(s1, ks.drop_first(), k);
        if s1.contains(k) && !s.contains(k) {
            let i = choose|i: int| 0 <= i < s1.len() && s1[i] == k;
            assert(s1.last() == ks[0]);
            assert(ks.contains(ks[0]));
        }
        if ks.drop_first().contains(k) {
            let i = choose|i: int| 0 <= i < ks.drop_first().len() && ks.drop_first()[i] == k;
            assert(ks[i + 1] == k);
        }
    }
}

/// The registry is append-only: whatever was registered stays
/// registered through any further insertion.
pub proof fn lemma_insert_grows(
    m: Map<(Seq<char>, Seq<char>), Seq<Masks>>,
    d: Seq<char>,
    f: Seq<char>,
    ks: Seq<Masks>,
    d2: Seq<char>,
    f2: Seq<char>,
    k: Masks,
)
    requires
        m.dom().contains((d2, f2)),
        m[(d2, f2)].contains(k),
    ensures
        reg_insert(m, d, f, ks).dom().contains((d2, f2)),
        reg_insert(m, d, f, ks)[(d2, f2)].contains(k),
{
    if (d2, f2) == (d, f) {
        lemma_append_missing_preserves(m[(d, f)], ks, k);
    }
}

/// After an insertion, a kind is registered for the pair exactly when
/// it was registered before or stood in the batch. In whatever order
/// and batches kinds arrive for a pair, the final content is the same
/// set.
pub proof fn lemma_registered_kinds(
    m: Map<(Seq<char>, Seq<char>), Seq<Masks>>,
    d: Seq<char>,
    f: Seq<char>,
    ks: Seq<Masks>,
    k: Masks,
)
    ensures
        reg_insert(m, d, f, ks)[(d, f)].contains(k) <==> ((m.dom().contains((d, f)) && m[
            (d, f)
        ].contains(k)) || ks.contains(k)),
{
    let prev = if m.dom().contains((d, f)) {
        m[(d, f)]
    } else {
        Seq::<Masks>::empty()
    };
    if reg_insert(m, d, f, ks)[(d, f)].contains(k) {
        lemma_append_missing_source(prev, ks, k);
    }
    if prev.contains(k) {
        lemma_append_missing_preserves(prev, ks, k);
    }
    if ks.contains(k) {
        lemma_append_missing_adds(prev, ks, k);
    }
}

/// With only `Created` registered for the exact target `a`, a raw
/// `Created` event about `a` yields exactly one semantic event, and a
/// raw `Deleted` event about `a` yields none.
pub proof fn lemma_exact_target_matching(d: Seq<char>, a: Seq<char>)
    requires
        a != wildcard(),
    ensures
        ({
            let m = reg_insert(Map::empty(), d, a, seq![Masks::Created]);
            &&& match_count(m, d, a, Masks::Created) == 1
            &&& match_count(m, d, a, Masks::Deleted) == 0
        }),
{
    let m0 = Map::<(Seq<char>, Seq<char>), Seq<Masks>>::empty();
    let m = reg_insert(m0, d, a, seq![Masks::Created]);
    lemma_append_missing_one(Seq::<Masks>::empty(), Masks::Created);
    assert(m[(d, a)] =~= seq![Masks::Created]);
    assert(m[(d, a)].contains(Masks::Created)) by {
        assert(m[(d, a)][0] == Masks::Created);
    }
    assert(!m[(d, a)].contains(Masks::Deleted)) by {
        assert(forall|i: int| 0 <= i < m[(d, a)].len() ==> m[(d, a)][i] == Masks::Created);
    }
    assert(matching_targets(m, d, a, Masks::Created) =~= seq![a].to_set()) by {
        assert(seq![a].contains(a)) by {
            assert(seq![a][0] == a);
        }
        assert forall|f: Seq<char>| #[trigger] is_match(m, d, a, Masks::Created, f) implies seq![
            a,
        ].to_set().contains(f) by {
            assert(f == a);
        }
        assert forall|f: Seq<char>| seq![a].to_set().contains(f) implies is_match(
            m,
            d,
            a,
            Masks::Created,
            f,
        ) by {
            assert(seq![a].contains(f));
            assert(f == a);
        }
    }
    seq![a].unique_seq_to_set();
    assert(matching_targets(m, d, a, Masks::Deleted) =~= Seq::<Seq<char>>::empty().to_set()) by {
        assert forall|f: Seq<char>| !(#[trigger] is_match(m, d, a, Masks::Deleted, f)) by {
            if m.dom().contains((d, f)) {
                assert(f == a);
            }
        }
        assert(forall|f: Seq<char>| !(#[trigger] Seq::<Seq<char>>::empty().contains(f)));
    }
    Seq::<Seq<char>>::empty().unique_seq_to_set();
}

/// With the wildcard registered for `Created`, `Modified` and
/// `Deleted`, a raw event about any file name — also one unknown at
/// registration time — with any of those kinds yields exactly one
/// semantic event.
pub proof fn lemma_wildcard_matching(d: Seq<char>, x: Seq<char>, k: Masks)
    requires
        k == Masks::Created || k == Masks::Modified || k == Masks::Deleted,
    ensures
        ({
            let m = reg_insert(
                Map::empty(),
                d,
                wildcard(),
                seq![Masks::Created, Masks::Modified, Masks::Deleted],
            );
            match_count(m, d, x, k) == 1
        }),
{
    let m0 = Map::<(Seq<char>, Seq<char>), Seq<Masks>>::empty();
    let ks = seq![Masks::Created, Masks::Modified, Masks::Deleted];
    let m = reg_insert(m0, d, wildcard(), ks);
    assert(m[(d, wildcard())].contains(k)) by {
        assert(ks[0] == Masks::Created && ks[1] == Masks::Modified && ks[2] == Masks::Deleted);
        assert(ks.contains(k));
        lemma_append_missing_adds(Seq::<Masks>::empty(), ks, k);
    }
    assert(matching_targets(m, d, x, k) =~= seq![wildcard()].to_set()) by {
        assert(seq![wildcard()].contains(wildcard())) by {
            assert(seq![wildcard()][0] == wildcard());
        }
        assert forall|f: Seq<char>| #[trigger] is_match(m, d, x, k, f) implies seq![
            wildcard(),
        ].to_set().contains(f) by {
            assert(f == wildcard());
        }
        assert forall|f: Seq<char>| seq![wildcard()].to_set().contains(f) implies is_match(
            m,
            d,
            x,
            k,
            f,
        ) by {
            assert(seq![wildcard()].contains(f));
            assert(f == wildcard());
        }
    }
    seq![wildcard()].unique_seq_to_set();
}

/// With both the exact target `a` and the wildcard registered for
/// `Created` under one directory, a single raw `Created` event about
/// `a` yields two semantic events: both registrations fire, and that
/// duplication is intended.
pub proof fn lemma_duplicate_emission(d: Seq<char>, a: Seq<char>)
    requires
        a != wildcard(),
    ensures
        ({
            let m = reg_insert(
                reg_insert(Map::empty(), d, a, seq![Masks::Created]),
                d,
                wildcard(),
                seq![Masks::Created],
            );
            match_count(m, d, a, Masks::Created) == 2
        }),
{
    let m0 = Map::<(Seq<char>, Seq<char>), Seq<Masks>>::empty();
    let m1 = reg_insert(m0, d, a, seq![Masks::Created]);
    let m = reg_insert(m1, d, wildcard(), seq![Masks::Created]);
    lemma_append_missing_one(Seq::<Masks>::empty(), Masks::Created);
    assert(m[(d, a)] == m1[(d, a)]);
    assert(m[(d, a)] =~= seq![Masks::Created]);
    assert(m[(d, wildcard())] =~= seq![Masks::Created]);
    assert(m[(d, a)].contains(Masks::Created)) by {
        assert(m[(d, a)][0] == Masks::Created);
    }
    assert(m[(d, wildcard())].contains(Masks::Created)) by {
        assert(m[(d, wildcard())][0] == Masks::Created);
    }
    let pair = seq![a, wildcard()];
    assert(matching_targets(m, d, a, Masks::Created) =~= pair.to_set()) by {
        assert(pair.contains(a) && pair.contains(wildcard())) by {
            assert(pair[0] == a && pair[1] == wildcard());
        }
        assert forall|f: Seq<char>| #[trigger] is_match(m, d, a, Masks::Created, f) implies pair
            .to_set().contains(f) by {
            assert(f == a || f == wildcard());
        }
        assert forall|f: Seq<char>| pair.to_set().contains(f) implies is_match(
            m,
            d,
            a,
            Masks::Created,
            f,
        ) by {
            assert(pair.contains(f));
            assert(f == a || f == wildcard());
        }
    }
    assert(pair.no_duplicates());
    pair.unique_seq_to_set();
}

/// The index of the entry for `(d, f)`, if one exists.
fn find_entry(entries: &Vec<WatchEntry>, d: &String, f: &String) -> (r: Option<usize>)
    ensures
        match r {
            Some(i) => i < entries@.len() && entries@[i as int].dir@ == d@
                && entries@[i as int].name@ == f@,
            None => forall|q: int|
                0 <= q < entries@.len() ==> !(entries@[q].dir@ == d@ && entries@[q].name@ == f@),
        },
{
    let mut i: usize = 0;
    while i < entries.len()
        invariant
            0 <= i <= entries@.len(),
            forall|q: int| 0 <= q < i ==> !(entries@[q].dir@ == d@ && entries@[q].name@ == f@),
        decreases entries@.len() - i,
    {
        if entries[i].dir.eq(d) && entries[i].name.eq(f) {
            return Some(i);
        }
        i = i + 1;
    }
    None
}

/// Append to `s` each kind of `ks` that `s` does not already hold,
/// in order.
fn append_missing_exec(s: &mut Vec<Masks>, ks: &Vec<Masks>)
    requires
        old(s)@.no_duplicates(),
    ensures
        final(s)@ == append_missing(old(s)@, ks@),
        final(s)@.no_duplicates(),
{
    let mut t: usize = 0;
    proof {
        assert(ks@.skip(0) =~= ks@);
    }
    while t < ks.len()
        invariant
            0 <= t <= ks@.len(),
            s@.no_duplicates(),
            append_missing(s@, ks@.skip(t as int)) == append_missing(old(s)@, ks@),
        decreases ks@.len() - t,
    {
        let k = ks[t];
        let present = masks_contains(s, k);
        proof {
            assert(ks@.skip(t as int)[0] == ks@[t as int]);
            assert(ks@.skip(t as int).drop_first() =~= ks@.skip(t + 1 as int));
        }
        if !present {
            s.push(k);
        }
        t = t + 1;
    }
    proof {
        assert(ks@.skip(ks@.len() as int) =~= Seq::<Masks>::empty());
    }
}

/// Whether `v` holds the kind `m`.
fn masks_contains(v: &Vec<Masks>, m: Masks) -> (r: bool)
    ensures
        r == v@.contains(m),
{
    let mut i: usize = 0;
    while i < v.len()
        invariant
            0 <= i <= v@.len(),
            forall|q: int| 0 <= q < i ==> v@[q] != m,
        decreases v@.len() - i,
    {
        if v[i] == m {
            return true;
        }
        i = i + 1;
    }
    false
}

/// With unique pairs, the kinds found for a registered pair are the
/// kinds of the witnessing entry.
proof fn lemma_masks_at_unique(s: Seq<WatchEntry>, i: int)
    requires
        pairs_unique(s),
        0 <= i < s.len(),
    ensures
        masks_at(s, s[i].dir@, s[i].name@) == s[i].masks@,
{
    let d = s[i].dir@;
    let f = s[i].name@;
    let q = choose|q: int| 0 <= q < s.len() && s[q].dir@ == d && s[q].name@ == f;
    assert(0 <= q < s.len() && s[q].dir@ == d && s[q].name@ == f);
    if q < i {
        assert(!(s[q].dir@ == s[i].dir@ && s[q].name@ == s[i].name@));
    } else if i < q {
        assert(!(s[i].dir@ == s[q].dir@ && s[i].name@ == s[q].name@));
    }
}

/// Updating the kinds of the unique entry for `(d, f)` takes the view
/// to `reg_insert` of the old view, provided the new kinds are the old
/// ones with the missing members of `ks` appended.
proof fn lemma_view_after_update(
    s_old: Seq<WatchEntry>,
    s_new: Seq<WatchEntry>,
    i: int,
    d: Seq<char>,
    f: Seq<char>,
    ks: Seq<Masks>,
)
    requires
        pairs_unique(s_old),
        0 <= i < s_old.len(),
        s_new.len() == s_old.len(),
        forall|q: int| 0 <= q < s_old.len() && q != i ==> s_new[q] == s_old[q],
        s_old[i].dir@ == d,
        s_old[i].name@ == f,
        s_new[i].dir@ == d,
        s_new[i].name@ == f,
        s_new[i].masks@ == append_missing(s_old[i].masks@, ks),
    ensures
        pairs_unique(s_new),
        entries_view(s_new) =~~= reg_insert(entries_view(s_old), d, f, ks),
{
    assert forall|q: int| 0 <= q < s_new.len() implies s_new[q].dir@ == s_old[q].dir@
        && s_new[q].name@ == s_old[q].name@ by {
        if q != i {
            assert(s_new[q] == s_old[q]);
        }
    }
    assert(pairs_unique(s_new));
    let v_old = entries_view(s_old);
    let v_new = entries_view(s_new);
    let target = reg_insert(v_old, d, f, ks);
    assert(v_old.dom().contains((d, f))) by {
        assert(0 <= i < s_old.len() && s_old[i].dir@ == d && s_old[i].name@ == f);
    }
    assert(v_old[(d, f)] == s_old[i].masks@) by {
        lemma_masks_at_unique(s_old, i);
    }
    assert forall|p: (Seq<char>, Seq<char>)|
        v_new.dom().contains(p) <==> target.dom().contains(p) by {
        if has_entry(s_new, p.0, p.1) {
            let q = choose|q: int|
                0 <= q < s_new.len() && s_new[q].dir@ == p.0 && s_new[q].name@ == p.1;
            assert(0 <= q < s_old.len() && s_old[q].dir@ == p.0 && s_old[q].name@ == p.1);
        }
        if has_entry(s_old, p.0, p.1) {
            let q = choose|q: int|
                0 <= q < s_old.len() && s_old[q].dir@ == p.0 && s_old[q].name@ == p.1;
            assert(0 <= q < s_new.len() && s_new[q].dir@ == p.0 && s_new[q].name@ == p.1);
        }
    }
    assert forall|p: (Seq<char>, Seq<char>)| v_new.dom().contains(p) implies v_new[p]
        =~= target[p] by {
        if p == (d, f) {
            lemma_masks_at_unique(s_new, i);
            assert(v_new[p] == s_new[i].masks@);
        } else {
            let q = choose|q: int|
                0 <= q < s_new.len() && s_new[q].dir@ == p.0 && s_new[q].name@ == p.1;
            assert(0 <= q < s_new.len() && s_new[q].dir@ == p.0 && s_new[q].name@ == p.1);
            assert(q != i);
            lemma_masks_at_unique(s_new, q);
            lemma_masks_at_unique(s_old, q);
            assert(v_new[p] == s_new[q].masks@);
            assert(target[p] == v_old[p]);
            assert(v_old[p] == s_old[q].masks@);
        }
    }
}

/// Appending an entry for a pair that the registry does not yet hold
/// takes the view to `reg_insert` of the old view, provided the new
/// entry's kinds are the missing members of `ks` over an empty set.
proof fn lemma_view_after_push(
    s_old: Seq<WatchEntry>,
    s_new: Seq<WatchEntry>,
    d: Seq<char>,
    f: Seq<char>,
    ks: Seq<Masks>,
)
    requires
        pairs_unique(s_old),
        s_new.len() == s_old.len() + 1,
        forall|q: int| 0 <= q < s_old.len() ==> s_new[q] == s_old[q],
        s_new.last().dir@ == d,
        s_new.last().name@ == f,
        s_new.last().masks@ == append_missing(Seq::<Masks>::empty(), ks),
        forall|q: int| 0 <= q < s_old.len() ==> !(s_old[q].dir@ == d && s_old[q].name@ == f),
    ensures
        pairs_unique(s_new),
        entries_view(s_new) =~~= reg_insert(entries_view(s_old), d, f, ks),
{
    let n = s_old.len() as int;
    assert(pairs_unique(s_new)) by {
        assert forall|i1: int, i2: int| 0 <= i1 < i2 < s_new.len() implies !(s_new[i1].dir@
            == s_new[i2].dir@ && s_new[i1].name@ == s_new[i2].name@) by {
            if i2 < n {
                assert(s_new[i1] == s_old[i1] && s_new[i2] == s_old[i2]);
            } else {
                assert(s_new[i1] == s_old[i1]);
                assert(s_new[i2] == s_new.last());
                assert(!(s_old[i1].dir@ == d && s_old[i1].name@ == f));
            }
        }
    }
    let v_old = entries_view(s_old);
    let v_new = entries_view(s_new);
    let target = reg_insert(v_old, d, f, ks);
    assert(!v_old.dom().contains((d, f)));
    assert forall|p: (Seq<char>, Seq<char>)|
        v_new.dom().contains(p) <==> target.dom().contains(p) by {
        if has_entry(s_new, p.0, p.1) {
            let q = choose|q: int|
                0 <= q < s_new.len() && s_new[q].dir@ == p.0 && s_new[q].name@ == p.1;
            if q < n {
                assert(0 <= q < s_old.len() && s_old[q].dir@ == p.0 && s_old[q].name@ == p.1);
            } else {
                assert(p.0 == d && p.1 == f);
                assert(p == (d, f));
            }
        }
        if has_entry(s_old, p.0, p.1) {
            let q = choose|q: int|
                0 <= q < s_old.len() && s_old[q].dir@ == p.0 && s_old[q].name@ == p.1;
            assert(0 <= q < s_new.len() && s_new[q].dir@ == p.0 && s_new[q].name@ == p.1);
        }
        if p == (d, f) {
            assert(0 <= n < s_new.len() && s_new[n].dir@ == p.0 && s_new[n].name@ == p.1);
        }
    }
    assert forall|p: (Seq<char>, Seq<char>)| v_new.dom().contains(p) implies v_new[p]
        =~= target[p] by {
        if p == (d, f) {
            lemma_masks_at_unique(s_new, n);
            assert(v_new[p] == s_new[n].masks@);
        } else {
            let q = choose|q: int|
                0 <= q < s_new.len() && s_new[q].dir@ == p.0 && s_new[q].name@ == p.1;
            assert(0 <= q < s_new.len() && s_new[q].dir@ == p.0 && s_new[q].name@ == p.1);
            assert(q != n) by {
                if q == n {
                    assert(p.0 == d && p.1 == f);
                }
            }
            lemma_masks_at_unique(s_new, q);
            lemma_masks_at_unique(s_old, q);
            assert(v_new[p] == s_new[q].masks@);
            assert(target[p] == v_old[p]);
            assert(v_old[p] == s_old[q].masks@);
        }
    }
}

} // verus!
