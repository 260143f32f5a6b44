//! The project catalogue: what `content.toml` may ask for, and the order the
//! imported assets are listed in.
use vstd::prelude::*;

use vstd::string::StringExecFns;

use crate::entity::AssetId;
use crate::project::{entries_view, AssetEntry, AssetEntryView, ImportProvenance, Project, ProjectView};
use crate::text::{chars_of, compare_texts, lemma_text_order, string_from_chars, text_before, Precedence};

verus! {

/// Whether asset `x` is listed before asset `y`: by folder, then name, then
/// kind, then address, each in text order.
pub open spec fn entry_before(x: AssetEntryView, y: AssetEntryView) -> bool {
    ||| text_before(x.folder, y.folder)
    ||| x.folder == y.folder && text_before(x.display_name, y.display_name)
    ||| x.folder == y.folder && x.display_name == y.display_name && text_before(x.kind, y.kind)
    ||| x.folder == y.folder && x.display_name == y.display_name && x.kind == y.kind && text_before(
        x.address,
        y.address,
    )
}

/// Whether two assets are listed at the same rank: same folder, name, kind
/// and address.
pub open spec fn same_rank(x: AssetEntryView, y: AssetEntryView) -> bool {
    x.folder == y.folder && x.display_name == y.display_name && x.kind == y.kind && x.address == y.address
}

/// Whether the assets are in listing order.
pub open spec fn in_listing_order(s: Seq<AssetEntryView>) -> bool {
    forall|i: int, j: int| 0 <= i < j < s.len() ==> !entry_before(#[trigger] s[j], #[trigger] s[i])
}

/// `x` placed into `s` after every asset not listed after it.
pub open spec fn insert_in_order(s: Seq<AssetEntryView>, x: AssetEntryView) -> Seq<AssetEntryView>
    decreases s.len(),
{
    if s.len() == 0 {
        seq![x]
    } else if entry_before(x, s.last()) {
        insert_in_order(s.drop_last(), x).push(s.last())
    } else {
        s.push(x)
    }
}

/// The assets in listing order; assets of the same rank keep their order.
pub open spec fn listing(s: Seq<AssetEntryView>) -> Seq<AssetEntryView>
    decreases s.len(),
{
    if s.len() == 0 {
        Seq::empty()
    } else {
        insert_in_order(listing(s.drop_last()), s.last())
    }
}

/// The listing order ranks assets strictly and totally, up to the same rank.
pub proof fn lemma_listing_order(a: AssetEntryView, b: AssetEntryView, c: AssetEntryView)
    ensures
        !entry_before(a, a),
        entry_before(a, b) ==> !entry_before(b, a),
        entry_before(a, b) || same_rank(a, b) || entry_before(b, a),
        entry_before(a, b) && entry_before(b, c) ==> entry_before(a, c),
        same_rank(a, b) ==> (entry_before(a, c) == entry_before(b, c) && entry_before(c, a) == entry_before(c, b)),
{
    lemma_text_order(a.folder, b.folder, c.folder);
    lemma_text_order(a.display_name, b.display_name, c.display_name);
    lemma_text_order(a.kind, b.kind, c.kind);
    lemma_text_order(a.address, b.address, c.address);
    lemma_text_order(b.folder, a.folder, c.folder);
    lemma_text_order(b.display_name, a.display_name, c.display_name);
    lemma_text_order(b.kind, a.kind, c.kind);
    lemma_text_order(b.address, a.address, c.address);
    lemma_text_order(c.folder, a.folder, b.folder);
    lemma_text_order(c.display_name, a.display_name, b.display_name);
    lemma_text_order(c.kind, a.kind, b.kind);
    lemma_text_order(c.address, a.address, b.address);
    lemma_text_order(a.folder, c.folder, b.folder);
    lemma_text_order(a.display_name, c.display_name, b.display_name);
    lemma_text_order(a.kind, c.kind, b.kind);
    lemma_text_order(a.address, c.address, b.address);
    lemma_text_order(b.folder, c.folder, a.folder);
    lemma_text_order(b.display_name, c.display_name, a.display_name);
    lemma_text_order(b.kind, c.kind, a.kind);
    lemma_text_order(b.address, c.address, a.address);
    lemma_text_order(c.folder, b.folder, a.folder);
    lemma_text_order(c.display_name, b.display_name, a.display_name);
    lemma_text_order(c.kind, b.kind, a.kind);
    lemma_text_order(c.address, b.address, a.address);
}

/// Where [`insert_in_order`] puts `x`: after the assets not listed after it,
/// before those listed after it.
proof fn lemma_insert_position(s: Seq<AssetEntryView>, x: AssetEntryView) -> (p: int)
    ensures
        0 <= p <= s.len(),
        insert_in_order(s, x) == s.insert(p, x),
        forall|k: int| p <= k < s.len() ==> entry_before(x, #[trigger] s[k]),
        p > 0 ==> !entry_before(x, s[p - 1]),
    decreases s.len(),
{
    if s.len() == 0 {
        assert(insert_in_order(s, x) =~= s.insert(0, x));
        0
    } else if entry_before(x, s.last()) {
        let p = lemma_insert_position(s.drop_last(), x);
        assert(insert_in_order(s, x) =~= s.insert(p, x));
        assert forall|k: int| p <= k < s.len() implies entry_before(x, #[trigger] s[k]) by {
            if k < s.len() - 1 {
                assert(s.drop_last()[k] == s[k]);
            }
        }
        if p > 0 {
            assert(s.drop_last()[p - 1] == s[p - 1]);
        }
        p
    } else {
        assert(insert_in_order(s, x) =~= s.insert(s.len() as int, x));
        s.len() as int
    }
}

/// Placing an asset into a list in listing order keeps it in listing order,
/// and adds exactly that asset.
proof fn lemma_insert_in_order(s: Seq<AssetEntryView>, x: AssetEntryView)
    requires
        in_listing_order(s),
    ensures
        in_listing_order(insert_in_order(s, x)),
        insert_in_order(s, x).to_multiset() == s.to_multiset().insert(x),
{
    let p = lemma_insert_position(s, x);
    let r = s.insert(p, x);
    vstd::seq_lib::to_multiset_insert(s, p, x);
    assert forall|i: int, j: int| 0 <= i < j < r.len() implies !entry_before(#[trigger] r[j], #[trigger] r[i]) by {
        if j < p {
            assert(r[i] == s[i] && r[j] == s[j]);
        } else if j == p {
            assert(r[i] == s[i]);
            // s[i] is not listed after s[p - 1], which is not listed after x.
            lemma_listing_order(x, s[p - 1], s[i]);
            lemma_listing_order(s[i], s[p - 1], x);
            lemma_listing_order(x, s[i], s[p - 1]);
            if i < p - 1 {
                assert(!entry_before(s[p - 1], s[i]));
            }
        } else if i < p {
            assert(r[i] == s[i] && r[j] == s[j - 1]);
            if i < j - 1 {
                assert(!entry_before(s[j - 1], s[i]));
            }
        } else if i == p {
            assert(r[j] == s[j - 1]);
            assert(entry_before(x, s[j - 1]));
            lemma_listing_order(x, s[j - 1], x);
        } else {
            assert(r[i] == s[i - 1] && r[j] == s[j - 1]);
        }
    }
}

/// The listing is in listing order and lists exactly the given assets.
pub proof fn lemma_listing(s: Seq<AssetEntryView>)
    ensures
        in_listing_order(listing(s)),
        listing(s).to_multiset() == s.to_multiset(),
    decreases s.len(),
{
    if s.len() == 0 {
        assert(listing(s) =~= s);
    } else {
        lemma_listing(s.drop_last());
        lemma_insert_in_order(listing(s.drop_last()), s.last());
        vstd::seq_lib::to_multiset_build(s.drop_last(), s.last());
        assert(s.drop_last().push(s.last()) =~= s);
    }
}

proof fn lemma_listing_keeps_ordered(s: Seq<AssetEntryView>)
    requires
        in_listing_order(s),
    ensures
        listing(s) == s,
    decreases s.len(),
{
    if s.len() > 0 {
        let front = s.drop_last();
        assert forall|i: int, j: int| 0 <= i < j < front.len() implies !entry_before(#[trigger] front[j], #[trigger] front[i]) by {
            assert(front[i] == s[i] && front[j] == s[j]);
        }
        lemma_listing_keeps_ordered(front);
        if front.len() > 0 {
            assert(front.last() == s[s.len() - 2]);
            assert(!entry_before(s[s.len() - 1], s[s.len() - 2]));
        }
        assert(front.push(s.last()) =~= s);
    }
}

/// Listing an already listed catalogue changes nothing.
pub proof fn law_listing_is_idempotent(s: Seq<AssetEntryView>)
    ensures
        listing(listing(s)) == listing(s),
{
    lemma_listing(s);
    lemma_listing_keeps_ordered(listing(s));
}

/// Whether asset `x` is listed before asset `y`.
fn entry_before_exec(x: &AssetEntry, y: &AssetEntry) -> (before: bool)
    ensures
        before == entry_before(x@, y@),
{
    match compare_texts(x.folder.as_str(), y.folder.as_str()) {
        Precedence::Before => true,
        Precedence::After => {
            proof { lemma_text_order(x@.folder, y@.folder, y@.folder); }
            false
        },
        Precedence::Same => match compare_texts(x.display_name.as_str(), y.display_name.as_str()) {
            Precedence::Before => true,
            Precedence::After => {
                proof { lemma_text_order(x@.display_name, y@.display_name, y@.display_name); }
                false
            },
            Precedence::Same => match compare_texts(x.kind.as_str(), y.kind.as_str()) {
                Precedence::Before => true,
                Precedence::After => {
                    proof { lemma_text_order(x@.kind, y@.kind, y@.kind); }
                    false
                },
                Precedence::Same => {
                    let order = compare_texts(x.address.as_str(), y.address.as_str());
                    match order {
                        Precedence::Before => true,
                        _ => false,
                    }
                },
            },
        },
    }
}

/// Places `entry` into `listed` after every asset not listed after it.
fn insert_entry(listed: &mut Vec<AssetEntry>, entry: AssetEntry)
    ensures
        entries_view(final(listed)@) == insert_in_order(entries_view(old(listed)@), entry@),
{
    let ghost v = entries_view(listed@);
    let mut p: usize = listed.len();
    assert(v.take(p as int) =~= v);
    assert(v.skip(p as int) =~= Seq::<AssetEntryView>::empty());
    while p > 0 && entry_before_exec(&entry, &listed[p - 1])
        invariant
            v == entries_view(listed@),
            0 <= p <= listed@.len(),
            insert_in_order(v, entry@) == insert_in_order(v.take(p as int), entry@) + v.skip(p as int),
        decreases p,
    {
        proof {
            let t = v.take(p as int);
            assert(t.drop_last() =~= v.take(p - 1));
            assert(t.last() == v[p - 1]);
            assert(v.skip(p - 1) =~= seq![v[p - 1]] + v.skip(p as int));
            assert(insert_in_order(t, entry@) == insert_in_order(v.take(p - 1), entry@).push(v[p - 1]));
            assert(insert_in_order(v.take(p - 1), entry@).push(v[p - 1]) + v.skip(p as int) =~= insert_in_order(
                v.take(p - 1),
                entry@,
            ) + v.skip(p - 1));
        }
        p = p - 1;
    }
    proof {
        let t = v.take(p as int);
        if p == 0 {
            assert(insert_in_order(t, entry@) == seq![entry@]);
        } else {
            assert(insert_in_order(t, entry@) == t.push(entry@));
        }
        assert(insert_in_order(t, entry@) + v.skip(p as int) =~= v.insert(p as int, entry@));
    }
    let ghost e = entry@;
    listed.insert(p, entry);
    assert(entries_view(listed@) =~= v.insert(p as int, e));
}

/// The assets in listing order: by folder, then name, then kind, then
/// address; assets of the same rank keep the order they came in.
pub fn sort_catalogue(assets: &Vec<AssetEntry>) -> (listed: Vec<AssetEntry>)
    ensures
        entries_view(listed@) == listing(entries_view(assets@)),
        in_listing_order(entries_view(listed@)),
        entries_view(listed@).to_multiset() == entries_view(assets@).to_multiset(),
{
    let ghost all = entries_view(assets@);
    let mut listed: Vec<AssetEntry> = Vec::new();
    let mut i: usize = 0;
    assert(entries_view(listed@) =~= listing(all.take(0)));
    while i < assets.len()
        invariant
            all == entries_view(assets@),
            0 <= i <= assets@.len(),
            entries_view(listed@) == listing(all.take(i as int)),
        decreases assets@.len() - i,
    {
        let entry = assets[i].clone();
        proof {
            assert(all.take(i + 1).drop_last() =~= all.take(i as int));
            assert(all.take(i + 1).last() == all[i as int]);
        }
        insert_entry(&mut listed, entry);
        i = i + 1;
    }
    assert(all.take(assets@.len() as int) =~= all);
    proof {
        lemma_listing(all);
    }
    listed
}

/// What `content.toml` says: the folder, relative to the project, that holds
/// the content, and the extension its asset files carry.
#[derive(Debug)]
pub struct CatalogueConfig {
    pub root: String,
    pub extension: String,
}

impl Default for CatalogueConfig {
    /// Content under `content`, in `.gasset` files.
    fn default() -> (config: Self)
        ensures
            config.root@ == "content"@,
            config.extension@ == "gasset"@,
    {
        CatalogueConfig { root: String::from_str("content"), extension: String::from_str("gasset") }
    }
}

/// Why a catalogue configuration was turned down.
#[derive(Clone, Copy, Debug, PartialEq, Eq, Structural)]
pub enum CatalogueError {
    /// The content root is empty, absolute, or leaves the project.
    ContentRoot,
    /// The extension is empty or holds a separator or a dot.
    ContentExtension,
}

pub open spec fn catalogue_error_text(e: CatalogueError) -> Seq<char> {
    match e {
        CatalogueError::ContentRoot => "Content root must be project-relative without parent traversal"@,
        CatalogueError::ContentExtension => "Invalid content extension"@,
    }
}

impl CatalogueError {
    /// What the editor reports for this error.
    pub fn describe(&self) -> (text: &'static str)
        ensures
            text@ == catalogue_error_text(*self),
    {
        match self {
            CatalogueError::ContentRoot => "Content root must be project-relative without parent traversal",
            CatalogueError::ContentExtension => "Invalid content extension",
        }
    }
}

/// One piece of a path, told apart as `std::path::Component` tells them.
#[derive(Clone, Copy, Debug, PartialEq, Eq, Structural)]
pub enum PathPart {
    Prefix,
    RootDir,
    CurDir,
    ParentDir,
    Normal,
}

/// The pieces of a text between its slashes, in order; a text without a
/// slash is one piece.
pub open spec fn slash_pieces(s: Seq<char>) -> Seq<Seq<char>>
    decreases s.len(),
{
    if s.len() == 0 {
        seq![Seq::empty()]
    } else {
        let pieces = slash_pieces(s.drop_last());
        if s.last() == '/' {
            pieces.push(Seq::empty())
        } else {
            pieces.update(pieces.len() - 1, pieces.last().push(s.last()))
        }
    }
}

/// Whether a piece of a path is a plain name on every platform: not empty,
/// not `.` or `..`, and free of slashes, backslashes and colons.
pub open spec fn plain_piece(p: Seq<char>) -> bool {
    &&& p.len() > 0
    &&& p != "."@
    &&& p != ".."@
    &&& forall|i: int| 0 <= i < p.len() ==> p[i] != '/' && p[i] != '\\' && p[i] != ':'
}

/// Whether a text climbs out or starts at the top on every platform: free of
/// backslashes and colons, and either starting with a slash or holding a
/// `..` piece.
pub open spec fn leaves_project(s: Seq<char>) -> bool {
    &&& forall|i: int| 0 <= i < s.len() ==> s[i] != '\\' && s[i] != ':'
    &&& ((s.len() > 0 && s[0] == '/') || exists|i: int| 0 <= i < slash_pieces(s).len() && slash_pieces(s)[i] == ".."@)
}

/// Whether a text free of backslashes and colons starts with a `.` piece,
/// which every platform keeps as a current-folder component.
pub open spec fn starts_here(s: Seq<char>) -> bool {
    &&& forall|i: int| 0 <= i < s.len() ==> s[i] != '\\' && s[i] != ':'
    &&& slash_pieces(s)[0] == "."@
}

/// Whether a text is a relative path of plain names joined by single
/// slashes, which every platform reads the same way.
pub open spec fn plain_path(s: Seq<char>) -> bool {
    forall|i: int| 0 <= i < slash_pieces(s).len() ==> plain_piece(#[trigger] slash_pieces(s)[i])
}

/// `Path::components`: the pieces of `path`, each told by its kind. A
/// relative path of plain names joined by single slashes is one `Normal`
/// component per name, as std documents for every platform. A text without
/// backslashes or colons that starts with a slash begins with a root (or, on
/// Windows, a prefix), and a `..` piece is a parent component, so such a
/// text is not all plain names; nor is one whose first piece is `.`, which
/// std keeps as a current-folder component. How any other text splits (its
/// separators, what counts as a prefix) is the platform's, and nothing is
/// stated of it.
#[verifier::external_body]
fn path_parts(path: &str) -> (parts: Vec<PathPart>)
    ensures
        plain_path(path@) ==> parts@ == Seq::new(slash_pieces(path@).len(), |i: int| PathPart::Normal),
        leaves_project(path@) ==> !plain_names(parts@),
        starts_here(path@) ==> !plain_names(parts@),
{
    std::path::Path::new(path).components().map(|part| match part {
        std::path::Component::Prefix(_) => PathPart::Prefix,
        std::path::Component::RootDir => PathPart::RootDir,
        std::path::Component::CurDir => PathPart::CurDir,
        std::path::Component::ParentDir => PathPart::ParentDir,
        std::path::Component::Normal(_) => PathPart::Normal,
    }).collect()
}

/// Whether every piece of a path is an ordinary name.
pub open spec fn plain_names(parts: Seq<PathPart>) -> bool {
    forall|i: int| 0 <= i < parts.len() ==> parts[i] is Normal
}

/// Whether an extension is usable: not empty, without a separator or a dot.
pub open spec fn extension_ok(extension: Seq<char>) -> bool {
    extension.len() > 0 && forall|i: int|
        0 <= i < extension.len() ==> extension[i] != '/' && extension[i] != '\\' && extension[i] != '.'
}

/// The verdict on a configuration whose root splits into `parts`.
pub open spec fn catalogue_verdict(root: Seq<char>, parts: Seq<PathPart>, extension: Seq<char>) -> Result<(), CatalogueError> {
    if root.len() == 0 || !plain_names(parts) {
        Err(CatalogueError::ContentRoot)
    } else if !extension_ok(extension) {
        Err(CatalogueError::ContentExtension)
    } else {
        Ok(())
    }
}

/// Judges a configuration whose content root splits into `parts`: the root
/// must be a non-empty path of plain names, the extension non-empty and free
/// of separators and dots.
pub fn check_catalogue_parts(root: &str, parts: &Vec<PathPart>, extension: &str) -> (verdict: Result<(), CatalogueError>)
    ensures
        verdict == catalogue_verdict(root@, parts@, extension@),
{
    if root.unicode_len() == 0 {
        return Err(CatalogueError::ContentRoot);
    }
    let mut i: usize = 0;
    while i < parts.len()
        invariant
            0 <= i <= parts@.len(),
            forall|j: int| 0 <= j < i ==> parts@[j] is Normal,
        decreases parts@.len() - i,
    {
        match parts[i] {
            PathPart::Normal => {},
            _ => {
                return Err(CatalogueError::ContentRoot);
            },
        }
        i = i + 1;
    }
    assert(plain_names(parts@));
    let ext = chars_of(extension);
    if ext.len() == 0 {
        return Err(CatalogueError::ContentExtension);
    }
    let mut k: usize = 0;
    while k < ext.len()
        invariant
            ext@ == extension@,
            root@.len() > 0,
            plain_names(parts@),
            0 <= k <= ext@.len(),
            forall|j: int| 0 <= j < k ==> ext@[j] != '/' && ext@[j] != '\\' && ext@[j] != '.',
        decreases ext@.len() - k,
    {
        let c = ext[k];
        if c == '/' || c == '\\' || c == '.' {
            return Err(CatalogueError::ContentExtension);
        }
        k = k + 1;
    }
    Ok(())
}

/// Judges a catalogue configuration. An empty root is turned down before its
/// pieces are looked at; otherwise the verdict is that of
/// [`check_catalogue_parts`] on the pieces `Path::components` finds.
pub fn check_catalogue(config: &CatalogueConfig) -> (verdict: Result<(), CatalogueError>)
    ensures
        config.root@.len() == 0 ==> verdict == Err::<(), CatalogueError>(CatalogueError::ContentRoot),
        verdict is Ok ==> config.root@.len() > 0 && extension_ok(config.extension@),
        verdict == Err::<(), CatalogueError>(CatalogueError::ContentExtension) ==> !extension_ok(config.extension@),
        exists|parts: Seq<PathPart>| verdict == catalogue_verdict(config.root@, parts, config.extension@),
        plain_path(config.root@) ==> verdict == if extension_ok(config.extension@) {
            Ok::<(), CatalogueError>(())
        } else {
            Err(CatalogueError::ContentExtension)
        },
        leaves_project(config.root@) ==> verdict == Err::<(), CatalogueError>(CatalogueError::ContentRoot),
        starts_here(config.root@) ==> verdict == Err::<(), CatalogueError>(CatalogueError::ContentRoot),
{
    if config.root.unicode_len() == 0 {
        proof {
            assert(catalogue_verdict(config.root@, Seq::empty(), config.extension@) == Err::<(), CatalogueError>(CatalogueError::ContentRoot));
            assert(config.root@ =~= Seq::<char>::empty());
            assert(slash_pieces(config.root@)[0] == Seq::<char>::empty());
        }
        return Err(CatalogueError::ContentRoot);
    }
    let parts = path_parts(config.root.as_str());
    proof {
        if plain_path(config.root@) {
            assert(plain_names(parts@));
        }
    }
    check_catalogue_parts(config.root.as_str(), &parts, config.extension.as_str())
}

/// What one asset file of the content tree told: its identity, its address
/// under the project, its kind, and where it was imported from, if it was.
#[derive(Debug)]
pub struct FoundAsset {
    pub id: AssetId,
    pub address: String,
    pub kind: String,
    pub provenance: Option<ImportProvenance>,
}

/// What a catalogue entry keeps of what was found: identity, address, kind,
/// source and sub-asset.
pub type Basis = (AssetId, Seq<char>, Seq<char>, Seq<char>, Seq<char>);

pub open spec fn entry_basis(e: AssetEntryView) -> Basis {
    (e.id, e.address, e.kind, e.source, e.sub_asset)
}

/// The findings that were imported, in the order found, as entries keep them.
pub open spec fn imported(found: Seq<FoundAsset>) -> Seq<Basis>
    decreases found.len(),
{
    if found.len() == 0 {
        Seq::empty()
    } else {
        let f = found.last();
        match f.provenance {
            Some(p) => imported(found.drop_last()).push((f.id, f.address@, f.kind@, p.source@, p.sub_asset@)),
            None => imported(found.drop_last()),
        }
    }
}

/// A text with every backslash turned into a slash.
pub open spec fn forward_slashes(s: Seq<char>) -> Seq<char> {
    s.map_values(|c: char| if c == '\\' { '/' } else { c })
}

/// The entry for a finding, given the file stem and the parent folder that
/// `Path` reads out of its address: named after the stem (the whole address
/// when there is none), filed under the parent with forward slashes (at the
/// top when there is none).
pub open spec fn named_entry(
    id: AssetId,
    address: Seq<char>,
    kind: Seq<char>,
    source: Seq<char>,
    sub_asset: Seq<char>,
    stem: Option<Seq<char>>,
    parent: Option<Seq<char>>,
) -> AssetEntryView {
    AssetEntryView {
        id,
        address,
        kind,
        display_name: match stem {
            Some(s) => s,
            None => address,
        },
        folder: match parent {
            Some(p) => forward_slashes(p),
            None => Seq::empty(),
        },
        source,
        sub_asset,
    }
}

/// Where the last dot of a text stands.
pub open spec fn last_dot(name: Seq<char>) -> Option<int>
    decreases name.len(),
{
    if name.len() == 0 {
        None
    } else if name.last() == '.' {
        Some(name.len() - 1)
    } else {
        last_dot(name.drop_last())
    }
}

/// Where the last slash of a text stands.
pub open spec fn last_slash(s: Seq<char>) -> Option<int>
    decreases s.len(),
{
    if s.len() == 0 {
        None
    } else if s.last() == '/' {
        Some(s.len() - 1)
    } else {
        last_slash(s.drop_last())
    }
}

/// The stem of a file name, by std's rule: the whole name when it has no
/// dot or only a leading one, else the part before the final dot.
pub open spec fn stem_of(name: Seq<char>) -> Seq<char> {
    match last_dot(name) {
        None => name,
        Some(k) => if k == 0 { name } else { name.take(k) },
    }
}

/// The stem of a path's last piece.
pub open spec fn file_stem_of(path: Seq<char>) -> Seq<char> {
    stem_of(slash_pieces(path).last())
}

/// A path without its last piece: what comes before its last slash, or
/// nothing for a path of one piece.
pub open spec fn parent_of(path: Seq<char>) -> Seq<char> {
    match last_slash(path) {
        None => Seq::empty(),
        Some(k) => path.take(k),
    }
}

/// `Path::file_stem`: the file name of `address` without its extension, if
/// it has a file name. For a relative path of plain names joined by single
/// slashes it is the stem of the last name, by the rule std documents
/// (whole name without a dot or with only a leading one, else the part
/// before the final dot); for other texts where the file name begins is the
/// platform's to say, and nothing is stated.
#[verifier::external_body]
fn file_stem(address: &str) -> (stem: Option<String>)
    ensures
        plain_path(address@) ==> stem is Some && stem.unwrap()@ == file_stem_of(address@),
{
    std::path::Path::new(address).file_stem().map(|stem| stem.to_string_lossy().into_owned())
}

/// `Path::parent`: `address` without its last piece, if it has one. For a
/// relative path of plain names joined by single slashes it is the text
/// before the last slash, and the empty path for a single name, as std
/// documents; for other texts where pieces part is the platform's to say,
/// and nothing is stated.
#[verifier::external_body]
fn parent_folder(address: &str) -> (parent: Option<String>)
    ensures
        plain_path(address@) ==> parent is Some && parent.unwrap()@ == parent_of(address@),
{
    std::path::Path::new(address).parent().map(|parent| parent.to_string_lossy().into_owned())
}

/// Turns every backslash of a text into a slash.
pub fn with_forward_slashes(s: &str) -> (text: String)
    ensures
        text@ == forward_slashes(s@),
{
    let chars = chars_of(s);
    let mut out: Vec<char> = Vec::new();
    let mut i: usize = 0;
    while i < chars.len()
        invariant
            chars@ == s@,
            0 <= i <= chars@.len(),
            out@ == forward_slashes(s@.take(i as int)),
        decreases chars@.len() - i,
    {
        let c = chars[i];
        if c == '\\' {
            out.push('/');
        } else {
            out.push(c);
        }
        i = i + 1;
        assert(out@ =~= forward_slashes(s@.take(i as int)));
    }
    assert(s@.take(chars@.len() as int) =~= s@);
    string_from_chars(&out)
}

/// The catalogue entry for an imported finding, given what `Path` read out
/// of its address.
pub fn name_entry(
    id: AssetId,
    address: &str,
    kind: &str,
    provenance: ImportProvenance,
    stem: Option<String>,
    parent: Option<String>,
) -> (entry: AssetEntry)
    ensures
        entry@ == named_entry(
            id,
            address@,
            kind@,
            provenance.source@,
            provenance.sub_asset@,
            match stem {
                Some(s) => Some(s@),
                None => None,
            },
            match parent {
                Some(p) => Some(p@),
                None => None,
            },
        ),
{
    let display_name = match stem {
        Some(s) => s,
        None => String::from_str(address),
    };
    let folder = match parent {
        Some(p) => with_forward_slashes(p.as_str()),
        None => String::new(),
    };
    AssetEntry { id, address: String::from_str(address), kind: String::from_str(kind), display_name, folder, provenance }
}

/// Whether `named` are entries made from the imported findings, one for each
/// in the order found, each filed under a folder without backslashes.
pub open spec fn named_from(named: Seq<AssetEntryView>, found: Seq<FoundAsset>) -> bool {
    &&& named.len() == imported(found).len()
    &&& forall|i: int| 0 <= i < named.len() ==> entry_basis(#[trigger] named[i]) == imported(found)[i]
    &&& forall|i: int, j: int| 0 <= i < named.len() && 0 <= j < named[i].folder.len() ==> named[i].folder[j] != '\\'
    &&& forall|i: int|
        0 <= i < named.len() && plain_path(named[i].address) ==> #[trigger] named[i] == named_entry(
            named[i].id,
            named[i].address,
            named[i].kind,
            named[i].source,
            named[i].sub_asset,
            Some(file_stem_of(named[i].address)),
            Some(parent_of(named[i].address)),
        )
}

/// The catalogue of the project at `root` from what its content tree held:
/// the imported findings, each named after its address, in listing order.
/// Findings that were not imported are left out.
pub fn build_catalogue(root: String, found: &Vec<FoundAsset>) -> (project: Project)
    ensures
        project@.root == root@,
        exists|named: Seq<AssetEntryView>| named_from(named, found@) && project@.assets == listing(named),
        in_listing_order(project@.assets),
{
    let mut assets: Vec<AssetEntry> = Vec::new();
    let mut i: usize = 0;
    while i < found.len()
        invariant
            0 <= i <= found@.len(),
            named_from(entries_view(assets@), found@.take(i as int)),
        decreases found@.len() - i,
    {
        let finding = &found[i];
        proof {
            assert(found@.take(i + 1).drop_last() =~= found@.take(i as int));
            assert(found@.take(i + 1).last() == found@[i as int]);
        }
        match &finding.provenance {
            Some(provenance) => {
                let stem = file_stem(finding.address.as_str());
                let parent = parent_folder(finding.address.as_str());
                let entry = name_entry(
                    finding.id,
                    finding.address.as_str(),
                    finding.kind.as_str(),
                    provenance.clone(),
                    stem,
                    parent,
                );
                let ghost before = entries_view(assets@);
                assets.push(entry);
                proof {
                    let now = entries_view(assets@);
                    assert(now =~= before.push(entry@));
                    assert forall|k: int, j: int| 0 <= k < now.len() && 0 <= j < now[k].folder.len() implies now[k].folder[j]
                        != '\\' by {
                        if k < before.len() {
                            assert(now[k] == before[k]);
                        }
                    }
                }
            },
            None => {},
        }
        i = i + 1;
    }
    assert(found@.take(found@.len() as int) =~= found@);
    let listed = sort_catalogue(&assets);
    Project { root, assets: listed }
}

} // verus!
