//! Description resolution: deriving a human-facing name, designer, and
//! canonical reference URL for one font asset, through a layered chain of
//! sidecar-metadata lookup, filename inference, and URL guessing.
//!
//! Every stage degrades gracefully: malformed metadata, an unrecognized
//! extension, or a failed probe leaves the corresponding field unset and
//! never raises an error.

use vstd::prelude::*;

use crate::json::json_field;
use crate::json::json_string_field;
use crate::json::json_tame;
use crate::json::spec_json_tame;
use crate::text::before;
use crate::text::camel_words;
use crate::text::plus_join;
use crate::text::spec_before;
use crate::text::spec_camel;
use crate::text::spec_plus_join;
use crate::text::spec_tokens;
use crate::text::split_tokens;

verus! {

/// The stem and the extension of a file name, split around its last `.`:
/// `None` where the name has no `.` at all.
pub open spec fn spec_split_ext(name: Seq<char>) -> Option<(Seq<char>, Seq<char>)>
    decreases name.len(),
{
    if name.len() == 0 {
        Option::None
    } else if name.last() == '.' {
        Option::Some((name.drop_last(), Seq::empty()))
    } else {
        match spec_split_ext(name.drop_last()) {
            Option::None => Option::None,
            Option::Some(p) => Option::Some((p.0, p.1.push(name.last()))),
        }
    }
}

proof fn lemma_split_ext_at(s: Seq<char>, i: int)
    requires
        0 <= i < s.len(),
        s[i] == '.',
        forall|j: int| i < j < s.len() ==> s[j] != '.',
    ensures
        spec_split_ext(s) == Option::Some((s.take(i), s.subrange(i + 1, s.len() as int))),
    decreases s.len(),
{
    if i == s.len() - 1 {
        assert(s.drop_last() =~= s.take(i));
        assert(s.subrange(i + 1, s.len() as int) =~= Seq::<char>::empty());
    } else {
        let pre = s.drop_last();
        assert(forall|j: int| 0 <= j < pre.len() ==> pre[j] == s[j]);
        lemma_split_ext_at(pre, i);
        assert(pre.take(i) =~= s.take(i));
        assert(pre.subrange(i + 1, pre.len() as int).push(s.last()) =~= s.subrange(
            i + 1,
            s.len() as int,
        ));
    }
}

proof fn lemma_split_ext_none(s: Seq<char>)
    requires
        forall|j: int| 0 <= j < s.len() ==> s[j] != '.',
    ensures
        spec_split_ext(s) is None,
    decreases s.len(),
{
    if s.len() > 0 {
        lemma_split_ext_none(s.drop_last());
    }
}

/// Whether the extension is the recognized font-file extension `ttf`,
/// compared case-insensitively.
pub open spec fn spec_is_ttf(e: Seq<char>) -> bool {
    e.len() == 3 && (e[0] == 't' || e[0] == 'T') && (e[1] == 't' || e[1] == 'T') && (e[2] == 'f'
        || e[2] == 'F')
}

/// The name inferred from a file's base name: for a recognized font file,
/// the family segment before the first `-`, its camel-case words separated
/// by spaces; `None` for other files and for an empty result.
pub open spec fn spec_infer_name(basename: Seq<char>) -> Option<Seq<char>> {
    match spec_split_ext(basename) {
        Option::None => Option::None,
        Option::Some(p) => {
            if !spec_is_ttf(p.1) {
                Option::None
            } else {
                let name = spec_camel(spec_before(p.0, '-'));
                if name.len() == 0 {
                    Option::None
                } else {
                    Option::Some(name)
                }
            }
        },
    }
}

/// Infers a display name from the base name of a file, a pure function of
/// that base name.
pub fn infer_name(basename: &str) -> (r: Option<String>)
    ensures
        r.deep_view() == spec_infer_name(basename@),
{
    let n = basename.unicode_len();
    // Find the last `.`, the extension separator.
    let mut i = n;
    loop
        invariant
            0 <= i <= n,
            n == basename@.len(),
            forall|j: int| i <= j < n ==> basename@[j] != '.',
        ensures
            1 <= i <= n,
            basename@[i - 1] == '.',
            forall|j: int| i <= j < n ==> basename@[j] != '.',
        decreases i,
    {
        if i == 0 {
            proof {
                lemma_split_ext_none(basename@);
            }
            return None;
        }
        if basename.get_char(i - 1) == '.' {
            break;
        }
        i = i - 1;
    }
    proof {
        lemma_split_ext_at(basename@, i - 1);
    }
    let stem = basename.substring_char(0, i - 1);
    let ghost ext = basename@.subrange(i as int, n as int);
    // The extension must be `ttf`, case-insensitively.
    if n - i != 3 {
        proof {
            assert(ext.len() != 3);
        }
        return None;
    }
    let c0 = basename.get_char(i);
    let c1 = basename.get_char(i + 1);
    let c2 = basename.get_char(i + 2);
    proof {
        assert(ext[0] == basename@[i as int]);
        assert(ext[1] == basename@[i + 1]);
        assert(ext[2] == basename@[i + 2]);
    }
    if !((c0 == 't' || c0 == 'T') && (c1 == 't' || c1 == 'T') && (c2 == 'f' || c2 == 'F')) {
        return None;
    }
    let family = before(stem, '-');
    let name = camel_words(family.as_str());
    if name.as_str().is_empty() {
        None
    } else {
        Some(name)
    }
}

/// The first name that any of the file base names yields, in directory
/// order.
pub open spec fn spec_first_inferred(names: Seq<Seq<char>>) -> Option<Seq<char>>
    decreases names.len(),
{
    if names.len() == 0 {
        Option::None
    } else {
        match spec_infer_name(names.first()) {
            Option::Some(nm) => Option::Some(nm),
            Option::None => spec_first_inferred(names.drop_first()),
        }
    }
}

/// The mathematical content of a `Description`: each field as an optional
/// character sequence.
pub struct DescriptionView {
    pub name: Option<Seq<char>>,
    pub designer: Option<Seq<char>>,
    pub url: Option<Seq<char>>,
}

/// A best-effort description of one font asset; every field may be unset.
pub struct Description {
    pub name: Option<String>,
    pub designer: Option<String>,
    pub url: Option<String>,
}

impl View for Description {
    type V = DescriptionView;

    open spec fn view(&self) -> DescriptionView {
        DescriptionView {
            name: self.name.deep_view(),
            designer: self.designer.deep_view(),
            url: self.url.deep_view(),
        }
    }
}

impl DeepView for Description {
    type V = DescriptionView;

    open spec fn deep_view(&self) -> DescriptionView {
        self.view()
    }
}

/// The name a metadata record contributes: present only where the text is
/// tame enough for the parser and parses with both a `name` and a
/// `designer` field, the name non-empty. Untame text, like malformed text,
/// contributes nothing.
pub open spec fn spec_meta_name(content: Option<Seq<char>>) -> Option<Seq<char>> {
    match content {
        Option::None => Option::None,
        Option::Some(s) => if !spec_json_tame(s) {
            Option::None
        } else {
            match (json_field(s, "name"@), json_field(s, "designer"@)) {
                (Option::Some(n), Option::Some(_)) => if n.len() > 0 {
                    Option::Some(n)
                } else {
                    Option::None
                },
                _ => Option::None,
            }
        },
    }
}

/// The designer a metadata record contributes, under the same conditions.
pub open spec fn spec_meta_designer(content: Option<Seq<char>>) -> Option<Seq<char>> {
    match content {
        Option::None => Option::None,
        Option::Some(s) => if !spec_json_tame(s) {
            Option::None
        } else {
            match (json_field(s, "name"@), json_field(s, "designer"@)) {
                (Option::Some(_), Option::Some(d)) => if d.len() > 0 {
                    Option::Some(d)
                } else {
                    Option::None
                },
                _ => Option::None,
            }
        },
    }
}

/// The URL template of the catalog, parameterized by a `+`-joined
/// identifier.
pub open spec fn spec_url_of(id: Seq<char>) -> Seq<char> {
    "https://www.google.com/fonts/specimen/"@ + id
}

/// The candidate URLs for a name, in strictly decreasing token count: the
/// candidate at position `i` joins all but the last `i` tokens.
pub open spec fn spec_candidates(name: Seq<char>) -> Seq<Seq<char>> {
    let toks = spec_tokens(name);
    Seq::new(toks.len(), |i: int| spec_url_of(spec_plus_join(toks.take(toks.len() - i))))
}

/// The first candidate whose probe succeeded, walking candidates and
/// outcomes side by side.
pub open spec fn spec_first_hit(cands: Seq<Seq<char>>, outcomes: Seq<bool>) -> Option<Seq<char>>
    decreases cands.len(),
{
    if cands.len() == 0 || outcomes.len() == 0 {
        Option::None
    } else if outcomes.first() {
        Option::Some(cands.first())
    } else {
        spec_first_hit(cands.drop_first(), outcomes.drop_first())
    }
}

/// The probe list descends one token at a time: there is one candidate per
/// token of the name, and the candidate at position `i` is the URL of the
/// first `len - i` tokens joined with `+`, so each probe carries one token
/// fewer than the one before it.
pub proof fn lemma_candidates_descend(name: Seq<char>, i: int)
    requires
        0 <= i < spec_candidates(name).len(),
    ensures
        spec_candidates(name).len() == spec_tokens(name).len(),
        spec_candidates(name)[i] == spec_url_of(
            spec_plus_join(spec_tokens(name).take(spec_tokens(name).len() - i)),
        ),
{
}

/// Where every probe failed, no URL is guessed.
pub proof fn lemma_all_probes_failed_no_url(cands: Seq<Seq<char>>, outcomes: Seq<bool>)
    requires
        forall|i: int| 0 <= i < outcomes.len() ==> !outcomes[i],
    ensures
        spec_first_hit(cands, outcomes) is None,
    decreases cands.len(),
{
    if cands.len() > 0 && outcomes.len() > 0 {
        assert(!outcomes[0]);
        assert forall|i: int| 0 <= i < outcomes.drop_first().len() implies !(#[trigger] outcomes.drop_first()[i]) by {
            assert(outcomes.drop_first()[i] == outcomes[i + 1]);
        }
        lemma_all_probes_failed_no_url(cands.drop_first(), outcomes.drop_first());
    }
}

/// The name stage one and stage two resolve together: the metadata name
/// where the record yields one, else the first inferred name.
pub open spec fn spec_resolved_name(
    content: Option<Seq<char>>,
    files: Seq<Seq<char>>,
) -> Option<Seq<char>> {
    match spec_meta_name(content) {
        Option::Some(nm) => Option::Some(nm),
        Option::None => spec_first_inferred(files),
    }
}

/// The URL stage three resolves: the first successful candidate of the
/// resolved name, unset where no name was resolved.
pub open spec fn spec_resolved_url(
    name: Option<Seq<char>>,
    outcomes: Seq<bool>,
) -> Option<Seq<char>> {
    match name {
        Option::None => Option::None,
        Option::Some(nm) => spec_first_hit(spec_candidates(nm), outcomes),
    }
}

/// The candidate URLs to probe for `name`, longest identifier first: the
/// full `+`-joined token list, then ever shorter prefixes, down to the
/// first token alone.
pub fn candidates(name: &str) -> (r: Vec<String>)
    ensures
        r.deep_view() == spec_candidates(name@),
{
    let toks = split_tokens(name);
    let n = toks.len();
    proof {
        assert(toks.deep_view().len() == toks@.len());
    }
    let mut out: Vec<String> = Vec::new();
    let mut i: usize = 0;
    proof {
        assert(out.deep_view() =~~= spec_candidates(name@).take(0int));
    }
    while i < n
        invariant
            0 <= i <= n,
            n == toks@.len(),
            toks.deep_view() == spec_tokens(name@),
            toks.deep_view().len() == n,
            out.deep_view() == spec_candidates(name@).take(i as int),
        decreases n - i,
    {
        let id = plus_join(&toks, n - i);
        let mut url = String::from_str("https://www.google.com/fonts/specimen/");
        url.append(id.as_str());
        proof {
            assert(url@ == spec_url_of(spec_plus_join(toks.deep_view().take(n - i))));
            assert(spec_candidates(name@)[i as int] == url@);
        }
        let ghost prior = out.deep_view();
        let ghost priorv = out@;
        let ghost posted = url@;
        out.push(url);
        proof {
            assert(spec_candidates(name@).len() == n);
            assert(prior.len() == i as int);
            assert(out@.len() == i + 1);
            assert forall|j: int| 0 <= j <= i as int implies out.deep_view()[j]
                == spec_candidates(name@).take(i + 1)[j] by {
                assert(out.deep_view()[j] == out@[j]@);
                if j < i as int {
                    assert(out@[j] == priorv[j]);
                    assert(prior[j] == priorv[j]@);
                    assert(prior[j] == spec_candidates(name@).take(i as int)[j]);
                } else {
                    assert(out@[j]@ == posted);
                }
            }
            assert(out.deep_view() =~~= spec_candidates(name@).take(i + 1));
        }
        i += 1;
    }
    proof {
        assert(spec_candidates(name@).take(n as int) =~~= spec_candidates(name@));
    }
    out
}

impl Description {
    /// A description with every field unset.
    pub fn new() -> (r: Description)
        ensures
            r@ == (DescriptionView {
                name: Option::None,
                designer: Option::None,
                url: Option::None,
            }),
    {
        Description { name: None, designer: None, url: None }
    }

    /// Stage one, metadata lookup: a sidecar record that parses with both
    /// fields copies its non-empty fields into the still unset fields of
    /// the description. `content` is the text of the sidecar file, `None`
    /// where the directory has none; malformed text contributes nothing.
    pub fn populate_by_metadata(self, content: Option<&str>) -> (r: Description)
        ensures
            r@ == (DescriptionView {
                name: match spec_meta_name(content.deep_view()) {
                    Option::Some(nm) => if self@.name is None {
                        Option::Some(nm)
                    } else {
                        self@.name
                    },
                    Option::None => self@.name,
                },
                designer: match spec_meta_designer(content.deep_view()) {
                    Option::Some(ds) => if self@.designer is None {
                        Option::Some(ds)
                    } else {
                        self@.designer
                    },
                    Option::None => self@.designer,
                },
                url: self@.url,
            }),
    {
        match content {
            None => self,
            Some(text) => {
                if !json_tame(text) {
                    return self;
                }
                let name_field = json_string_field(text, "name");
                let designer_field = json_string_field(text, "designer");
                match (name_field, designer_field) {
                    (Some(n), Some(d)) => {
                        let name = if self.name.is_none() && !n.as_str().is_empty() {
                            Some(n)
                        } else {
                            self.name
                        };
                        let designer = if self.designer.is_none() && !d.as_str().is_empty() {
                            Some(d)
                        } else {
                            self.designer
                        };
                        Description { name, designer, url: self.url }
                    },
                    _ => self,
                }
            },
        }
    }

    /// Stage two, filename inference: skipped where a name is already
    /// known; otherwise the first file base name that yields an inferred
    /// name sets it. `filenames` holds the base names of the files in the
    /// asset's directory, in directory order.
    pub fn populate_by_inference(self, filenames: &Vec<String>) -> (r: Description)
        ensures
            r@ == (DescriptionView {
                name: match self@.name {
                    Option::Some(nm) => Option::Some(nm),
                    Option::None => spec_first_inferred(filenames.deep_view()),
                },
                designer: self@.designer,
                url: self@.url,
            }),
    {
        if self.name.is_some() {
            return self;
        }
        let ghost names = filenames.deep_view();
        let mut i: usize = 0;
        proof {
            assert(names.skip(0int) =~~= names);
        }
        while i < filenames.len()
            invariant
                0 <= i <= filenames@.len(),
                self@.name is None,
                names == filenames.deep_view(),
                names.len() == filenames@.len(),
                spec_first_inferred(names.skip(i as int)) == spec_first_inferred(names),
            decreases filenames@.len() - i,
        {
            proof {
                assert(names.skip(i as int).first() == names[i as int]);
                assert(names[i as int] == filenames@[i as int]@);
                assert(names.skip(i as int).drop_first() =~~= names.skip(i + 1));
            }
            let inferred = infer_name(filenames[i].as_str());
            match inferred {
                Some(nm) => {
                    proof {
                        assert(spec_first_inferred(names.skip(i as int)) == Option::Some(nm@));
                    }
                    return Description { name: Some(nm), designer: self.designer, url: self.url };
                },
                None => {},
            }
            i += 1;
        }
        proof {
            assert(names.skip(names.len() as int) =~~= Seq::<Seq<char>>::empty());
        }
        self
    }

    /// Stage three, URL guessing: skipped where no name is known or a URL
    /// already is. `outcomes` holds the probe results for the candidate
    /// URLs of the name, in candidate order; the first success sets the
    /// URL, and a run of failures leaves it unset.
    pub fn populate_by_guessing(self, outcomes: &Vec<bool>) -> (r: Description)
        ensures
            r@ == (DescriptionView {
                name: self@.name,
                designer: self@.designer,
                url: match self@.name {
                    Option::None => self@.url,
                    Option::Some(nm) => if self@.url is Some {
                        self@.url
                    } else {
                        spec_first_hit(spec_candidates(nm), outcomes@)
                    },
                },
            }),
    {
        let name = match &self.name {
            None => {
                return self;
            },
            Some(nm) => nm,
        };
        if self.url.is_some() {
            return self;
        }
        let cands = candidates(name.as_str());
        let ghost cs = cands.deep_view();
        let ghost os = outcomes@;
        let mut i: usize = 0;
        proof {
            assert(cs.skip(0int) =~~= cs);
            assert(os.skip(0int) =~= os);
        }
        while i < cands.len() && i < outcomes.len()
            invariant
                0 <= i,
                i <= cands@.len(),
                i <= outcomes@.len(),
                self@.name is Some,
                self@.url is None,
                cs == spec_candidates(self@.name->0),
                cs == cands.deep_view(),
                cs.len() == cands@.len(),
                os == outcomes@,
                spec_first_hit(cs.skip(i as int), os.skip(i as int)) == spec_first_hit(cs, os),
            decreases cands@.len() - i,
        {
            proof {
                assert(cs.skip(i as int).first() == cs[i as int]);
                assert(cs[i as int] == cands@[i as int]@);
                assert(os.skip(i as int).first() == os[i as int]);
                assert(cs.skip(i as int).drop_first() =~~= cs.skip(i + 1));
                assert(os.skip(i as int).drop_first() =~= os.skip(i + 1));
            }
            if outcomes[i] {
                let url = cands[i].clone();
                proof {
                    assert(url@ == cs[i as int]);
                    assert(os.skip(i as int).first());
                    assert(spec_first_hit(cs.skip(i as int), os.skip(i as int)) == Option::Some(
                        cs[i as int],
                    ));
                }
                return Description {
                    name: self.name,
                    designer: self.designer,
                    url: Some(url),
                };
            }
            i += 1;
        }
        proof {
            if i >= cs.len() {
                assert(cs.skip(i as int) =~~= Seq::<Seq<char>>::empty());
            } else {
                assert(os.skip(i as int) =~= Seq::<bool>::empty());
            }
        }
        self
    }

    /// Resolves the description of one asset from the three outside
    /// observations: the sidecar text, the directory's file base names,
    /// and the probe outcomes for the candidate URLs of the resolved name.
    /// It never fails: every stage degrades to unset fields.
    pub fn load(metadata: Option<&str>, filenames: &Vec<String>, outcomes: &Vec<bool>) -> (r:
        Description)
        ensures
            r@ == (DescriptionView {
                name: spec_resolved_name(metadata.deep_view(), filenames.deep_view()),
                designer: spec_meta_designer(metadata.deep_view()),
                url: spec_resolved_url(
                    spec_resolved_name(metadata.deep_view(), filenames.deep_view()),
                    outcomes@,
                ),
            }),
    {
        let desc = Description::new();
        let desc = desc.populate_by_metadata(metadata);
        let desc = desc.populate_by_inference(filenames);
        desc.populate_by_guessing(outcomes)
    }
}

} // verus!
