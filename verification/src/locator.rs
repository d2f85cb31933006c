//! Where the pages of items are on docs.rs.

use crate::ast::ItemKind;
use crate::doc::Doc;
use crate::error::Error;
use crate::item::Item;
use vstd::prelude::*;
use vstd::string::{StrSliceExecFns, StringExecFns};

verus! {

/// The most characters, separators counted, of a URL to whose path
/// segments are appended.
pub const JOIN_LIMIT: usize = 0x1000_0000;

/// The URL that `text` is: `None` where `text` is not a URL.
pub uninterp spec fn url_parsed(text: Seq<char>) -> Option<Seq<char>>;

/// The URL that `base` is, with each of `segments` appended to its path
/// in turn: `None` where `base` is not a URL.
pub uninterp spec fn url_joined(base: Seq<char>, segments: Seq<Seq<char>>) -> Option<Seq<char>>;

/// The characters of `segments`, and one separator for each.
pub open spec fn joined_len(segments: Seq<Seq<char>>) -> nat
    decreases segments.len(),
{
    if segments.len() == 0 {
        0
    } else {
        joined_len(segments.drop_last()) + segments.last().len() + 1
    }
}

/// Whether `segments` can be appended to the path of `base`: the two
/// together have at most [`JOIN_LIMIT`] characters.
pub open spec fn join_fits(base: Seq<char>, segments: Seq<Seq<char>>) -> bool {
    base.len() + joined_len(segments) <= JOIN_LIMIT
}

/// The characters of some of the segments are among those of all.
pub proof fn lemma_joined_len_grows(segments: Seq<Seq<char>>, n: int)
    requires
        0 <= n <= segments.len(),
    ensures
        joined_len(segments.take(n)) <= joined_len(segments),
    decreases segments.len(),
{
    if n < segments.len() {
        lemma_joined_len_grows(segments.drop_last(), n);
        assert(segments.drop_last().take(n) =~= segments.take(n));
    } else {
        assert(segments.take(n) =~= segments);
    }
}

/// Whether `base` is an address on docs.rs.
pub open spec fn on_docs_rs(base: Seq<char>) -> bool {
    "https://docs.rs/"@.is_prefix_of(base)
}

/// [`url::Url::parse`], and the URL as text. What comes back depends on
/// the text alone. Nothing is appended to the URL, and nothing in
/// parsing panics on a long text.
#[verifier::external_body]
fn parse_url(text: &str) -> (r: Result<String, url::ParseError>)
    ensures
        match r {
            Ok(url) => url_parsed(text@) == Some(url@),
            Err(_) => url_parsed(text@) is None,
        },
{
    Ok(url::Url::parse(text)?.into())
}

/// `extend` of the [`url::PathSegmentsMut`] of the URL that
/// [`url::Url::parse`] makes of `base`, and the URL as text. What comes
/// back depends on the arguments alone. Only text passes through the
/// library, so the URL to append to is made here.
///
/// To append to a URL panics where the URL has more than 4 GiB, before
/// the appending or after it. Behind the host, parsing and appending
/// write at most three bytes for each of the at most four of a
/// character: under the bound the URL stays below 4 GiB throughout.
#[verifier::external_body]
fn join_url(base: &str, segments: &Vec<String>) -> (r: Result<String, url::ParseError>)
    requires
        on_docs_rs(base@),
        join_fits(base@, segments.deep_view()),
    ensures
        match r {
            Ok(text) => url_joined(base@, segments.deep_view()) == Some(text@),
            Err(_) => url_joined(base@, segments.deep_view()) is None,
        },
{
    let mut url = url::Url::parse(base)?;
    if let Ok(mut path) = url.path_segments_mut() {
        path.extend(segments);
    }
    Ok(url.into())
}

/// The address of the pages of a crate in one of its versions.
pub open spec fn crate_pages(crate_name: Seq<char>, version: Seq<char>) -> Seq<char> {
    "https://docs.rs/"@ + crate_name + "/"@ + version
}

/// The word that the name of the page of an item of `kind` starts with.
pub open spec fn page_word(kind: ItemKind) -> Option<Seq<char>> {
    match kind {
        ItemKind::Struct => Some("struct"@),
        ItemKind::Union => Some("union"@),
        ItemKind::Enum => Some("enum"@),
        ItemKind::Trait => Some("trait"@),
        ItemKind::Function => Some("fn"@),
        ItemKind::Constant => Some("const"@),
        ItemKind::Static => Some("static"@),
        ItemKind::Macro => Some("macro"@),
        ItemKind::TypeAlias => Some("type"@),
        _ => None,
    }
}

/// The file that is the page of an item of `kind` called `name`: the
/// index of a module; for a type, a trait, a function, a constant, a
/// static, a macro or a type alias, a file named by kind and name. Items
/// of other kinds have no page of their own.
pub open spec fn page_file(kind: ItemKind, name: Seq<char>) -> Option<Seq<char>> {
    match kind {
        ItemKind::Module => Some("index.html"@),
        _ => match page_word(kind) {
            Some(word) => Some(word + "."@ + name + ".html"@),
            None => None,
        },
    }
}

/// The directories that lead from the pages of the crate to the page of
/// an item of `kind` found under `path`: the segments of the path behind
/// the crate's name, all of them for a module, all but the last for any
/// other item.
pub open spec fn page_dirs(kind: ItemKind, path: Seq<Seq<char>>) -> Seq<Seq<char>> {
    match kind {
        ItemKind::Module => path.subrange(1, path.len() as int),
        _ => if path.len() >= 2 {
            path.subrange(1, path.len() - 1)
        } else {
            Seq::empty()
        },
    }
}

impl Item {
    /// The version in the address of the item's page.
    pub open spec fn version_text(&self) -> Seq<char> {
        match self.crate_version {
            Some(version) => version@,
            None => "latest"@,
        }
    }

    /// Whether items of this record's kind have a page of their own.
    pub open spec fn has_page(&self) -> bool {
        self.kind matches Some(kind) && page_file(kind, self.name@) is Some
    }

    /// The segments that lead from the pages of the crate to the page of
    /// the item; none where the item has no page.
    pub open spec fn page_segments(&self) -> Seq<Seq<char>> {
        match self.kind {
            Some(kind) => match page_file(kind, self.name@) {
                Some(file) => page_dirs(kind, self.path.deep_view()).push(file),
                None => Seq::empty(),
            },
            None => Seq::empty(),
        }
    }

    /// The parts of the address of the item's page: the address of the
    /// crate's pages, and the segments that lead on from there. A record
    /// without a path or without a kind has no address.
    pub open spec fn locator_parts(&self) -> Option<(Seq<char>, Seq<Seq<char>>)> {
        if self.path.len() == 0 || self.kind is None {
            None
        } else {
            Some((crate_pages(self.path@[0]@, self.version_text()), self.page_segments()))
        }
    }

    /// Whether the address of the item's page is short enough to be
    /// written: it is for a record without a page, and for a page whose
    /// address has at most [`JOIN_LIMIT`] characters.
    pub open spec fn locator_fits(&self) -> bool {
        self.locator_parts() matches Some((pages, segments)) ==> segments.len() == 0 || join_fits(
            pages,
            segments,
        )
    }

    /// Whether the address of the item's page is short enough to be
    /// written.
    pub fn url_fits(&self) -> (r: bool)
        ensures
            r == self.locator_fits(),
    {
        let (pages, segments) = match self.url_parts() {
            Some(parts) => parts,
            None => {
                return true;
            },
        };
        if segments.len() == 0 {
            return true;
        }
        let ghost all = segments.deep_view();
        let mut total: usize = pages.as_str().unicode_len();
        let mut i: usize = 0;
        assert(all.take(0) =~= Seq::<Seq<char>>::empty());
        while i < segments.len()
            invariant
                self.locator_parts() == Some((pages@, all)),
                all == segments.deep_view(),
                all.len() > 0,
                i <= segments.len(),
                total == pages@.len() + joined_len(all.take(i as int)),
            decreases segments.len() - i,
        {
            let len = segments[i].as_str().unicode_len();
            proof {
                assert(all.take(i + 1).drop_last() =~= all.take(i as int));
                assert(all.take(i + 1).last() == segments@[i as int]@);
                lemma_joined_len_grows(all, i + 1);
            }
            if total > JOIN_LIMIT || len >= JOIN_LIMIT - total {
                return false;
            }
            total = total + len + 1;
            i += 1;
        }
        assert(all.take(segments.len() as int) =~= all);
        total <= JOIN_LIMIT
    }

    /// The parts of the address of the item's page.
    pub fn url_parts(&self) -> (r: Option<(String, Vec<String>)>)
        ensures
            match r {
                Some((pages, segments)) => self.locator_parts() == Some(
                    (pages@, segments.deep_view()),
                ) && on_docs_rs(pages@),
                None => self.locator_parts() is None,
            },
    {
        if self.path.len() == 0 {
            return None;
        }
        let kind = match self.kind {
            Some(kind) => kind,
            None => {
                return None;
            },
        };
        let version = match &self.crate_version {
            Some(version) => version.as_str(),
            None => "latest",
        };
        let mut pages = String::from_str("https://docs.rs/");
        pages.append(self.path[0].as_str());
        pages.append("/");
        pages.append(version);
        assert(on_docs_rs(pages@));
        let word = match kind {
            ItemKind::Module => "",
            ItemKind::Struct => "struct",
            ItemKind::Union => "union",
            ItemKind::Enum => "enum",
            ItemKind::Trait => "trait",
            ItemKind::Function => "fn",
            ItemKind::Constant => "const",
            ItemKind::Static => "static",
            ItemKind::Macro => "macro",
            ItemKind::TypeAlias => "type",
            _ => {
                let none: Vec<String> = Vec::new();
                return Some((pages, none));
            },
        };
        let is_module = match kind {
            ItemKind::Module => true,
            _ => false,
        };
        let end: usize = if is_module {
            self.path.len()
        } else if self.path.len() >= 2 {
            self.path.len() - 1
        } else {
            1
        };
        let mut segments: Vec<String> = Vec::new();
        let mut i: usize = 1;
        let ghost path = self.path.deep_view();
        while i < end
            invariant
                1 <= i <= end <= self.path.len(),
                path == self.path.deep_view(),
                segments.deep_view() == path.subrange(1, i as int),
            decreases end - i,
        {
            segments.push(self.path[i].clone());
            assert(path.subrange(1, i + 1) =~= path.subrange(1, i as int).push(path[i as int]));
            i += 1;
        }
        let file = if is_module {
            String::from_str("index.html")
        } else {
            let mut file = String::from_str(word);
            file.append(".");
            file.append(self.name.as_str());
            file.append(".html");
            file
        };
        segments.push(file);
        Some((pages, segments))
    }

    /// The address of the item's page on docs.rs, if it has one.
    ///
    /// A record with a path and a kind has no address where the address
    /// of the crate's pages is not a URL, whether its kind has a page or
    /// not: for a kind without a page that address is parsed, and
    /// nothing is appended to it.
    pub fn url(&self) -> (r: Result<Option<String>, Error>)
        requires
            self.locator_fits(),
        ensures
            match self.locator_parts() {
                Some((pages, segments)) => if self.has_page() {
                    match url_joined(pages, segments) {
                        Some(address) => r matches Ok(Some(text)) && text@ == address,
                        None => r matches Err(Error::Url(_)),
                    }
                } else {
                    match url_parsed(pages) {
                        Some(_) => r matches Ok(None),
                        None => r matches Err(Error::Url(_)),
                    }
                },
                None => r matches Ok(None),
            },
    {
        let (pages, segments) = match self.url_parts() {
            Some(parts) => parts,
            None => {
                return Ok(None);
            },
        };
        if segments.len() == 0 {
            self.located(parse_url(pages.as_str()))
        } else {
            self.located(join_url(pages.as_str(), &segments))
        }
    }

    /// What [`Item::url`] answers once the parts of the address are put
    /// together: `written` is the URL that they make, or the reason why
    /// they make none. The URL is the answer where the item has a page.
    pub fn located(&self, written: Result<String, url::ParseError>) -> (r: Result<
        Option<String>,
        Error,
    >)
        ensures
            match written {
                Ok(address) => if self.has_page() {
                    r == Ok::<Option<String>, Error>(Some(address))
                } else {
                    r matches Ok(None)
                },
                Err(reason) => r matches Err(Error::Url(e)) && e == reason,
            },
    {
        let has_page = match self.kind {
            Some(kind) => match kind {
                ItemKind::Module
                | ItemKind::Struct
                | ItemKind::Union
                | ItemKind::Enum
                | ItemKind::Trait
                | ItemKind::Function
                | ItemKind::Constant
                | ItemKind::Static
                | ItemKind::Macro
                | ItemKind::TypeAlias => true,
                _ => false,
            },
            None => false,
        };
        match written {
            Ok(address) => if has_page {
                Ok(Some(address))
            } else {
                Ok(None)
            },
            Err(reason) => Err(Error::Url(reason)),
        }
    }
}

/// Documentation that is still on docs.rs.
pub struct Remote {
    /// Where the documentation is.
    pub url: String,
}

/// The address of the compressed documentation of a crate in one of its
/// versions, as it is written before a URL is made of it.
pub open spec fn archive_address(crate_name: Seq<char>, version: Seq<char>) -> Seq<char> {
    "https://docs.rs/crate/"@ + crate_name + "/"@ + version + "/json.zst"@
}

impl Doc<Remote> {
    /// The documentation of `crate_name` in `version` on docs.rs. Fails
    /// where the two do not make a URL.
    pub fn from_docs(crate_name: &str, version: &str) -> (r: Result<Self, Error>)
        ensures
            match url_parsed(archive_address(crate_name@, version@)) {
                Some(address) => r matches Ok(doc) && doc.0.url@ == address,
                None => r matches Err(Error::Url(_)),
            },
    {
        let mut text = String::from_str("https://docs.rs/crate/");
        text.append(crate_name);
        text.append("/");
        text.append(version);
        text.append("/json.zst");
        match parse_url(text.as_str()) {
            Ok(url) => Ok(Doc(Remote { url })),
            Err(e) => Err(Error::Url(e)),
        }
    }
}

} // verus!
