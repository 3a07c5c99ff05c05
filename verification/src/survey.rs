//! Qualification of a survey: where and by what it was captured (site,
//! sensor, interface), declared by the operator. Blank entries mean "not
//! filled in".

use vstd::prelude::*;

use crate::flow_matrix::{copy_opt_text, opt_text, same_opt_text};
use crate::text::{trim, trimmed};

verus! {

/// Context of a survey, as the survey holds it.
#[derive(Debug)]
pub struct SurveyContext {
    pub site: Option<String>,
    pub sensor: Option<String>,
    pub interface: Option<String>,
}

/// Context of a survey crossing the interface with the front end.
#[derive(Debug)]
pub struct SurveyContextDto {
    pub site: Option<String>,
    pub sensor: Option<String>,
    pub interface: Option<String>,
}

/// A field once normalized: trimmed, and absent when empty.
pub open spec fn normalized(value: Option<Seq<char>>) -> Option<Seq<char>> {
    match value {
        Some(v) => if trim(v).len() == 0 {
            None
        } else {
            Some(trim(v))
        },
        None => None,
    }
}

impl SurveyContext {
    /// Normalizes an entry: surrounding whitespace removed, an empty or
    /// blank entry becomes absent.
    pub fn normalized_field(value: Option<&str>) -> (r: Option<String>)
        ensures
            opt_text(r) == normalized(match value {
                Some(v) => Some(v@),
                None => None,
            }),
    {
        match value {
            Some(v) => {
                let t = trimmed(v);
                if t.as_str().is_empty() {
                    None
                } else {
                    Some(t)
                }
            },
            None => None,
        }
    }

    /// The context an operator entry gives, each field normalized.
    pub fn from_entry(entry: &SurveyContextDto) -> (r: SurveyContext)
        ensures
            opt_text(r.site) == normalized(opt_text(entry.site)),
            opt_text(r.sensor) == normalized(opt_text(entry.sensor)),
            opt_text(r.interface) == normalized(opt_text(entry.interface)),
    {
        SurveyContext {
            site: Self::normalized_field(as_str_opt(&entry.site)),
            sensor: Self::normalized_field(as_str_opt(&entry.sensor)),
            interface: Self::normalized_field(as_str_opt(&entry.interface)),
        }
    }

    /// Whether two contexts hold the same fields.
    pub fn same_as(&self, other: &SurveyContext) -> (r: bool)
        ensures
            r == (opt_text(self.site) == opt_text(other.site) && opt_text(self.sensor) == opt_text(
                other.sensor,
            ) && opt_text(self.interface) == opt_text(other.interface)),
    {
        same_opt_text(&self.site, &other.site) && same_opt_text(&self.sensor, &other.sensor)
            && same_opt_text(&self.interface, &other.interface)
    }

    /// The context as sent to the front end.
    pub fn to_dto(&self) -> (r: SurveyContextDto)
        ensures
            opt_text(r.site) == opt_text(self.site),
            opt_text(r.sensor) == opt_text(self.sensor),
            opt_text(r.interface) == opt_text(self.interface),
    {
        SurveyContextDto {
            site: copy_opt_text(&self.site),
            sensor: copy_opt_text(&self.sensor),
            interface: copy_opt_text(&self.interface),
        }
    }
}

fn as_str_opt(o: &Option<String>) -> (r: Option<&str>)
    ensures
        match r {
            Some(v) => opt_text(*o) == Some(v@),
            None => o is None,
        },
{
    match o {
        Some(s) => Some(s.as_str()),
        None => None,
    }
}

/// Records the context entered by the operator: returns the normalized
/// context and whether it differs from the current one (only a real change
/// marks the survey as modified).
pub fn apply_survey_context(current: &SurveyContext, entry: &SurveyContextDto) -> (r: (SurveyContext, bool))
    ensures
        opt_text(r.0.site) == normalized(opt_text(entry.site)),
        opt_text(r.0.sensor) == normalized(opt_text(entry.sensor)),
        opt_text(r.0.interface) == normalized(opt_text(entry.interface)),
        r.1 == !(opt_text(current.site) == opt_text(r.0.site) && opt_text(current.sensor) == opt_text(
            r.0.sensor,
        ) && opt_text(current.interface) == opt_text(r.0.interface)),
{
    let normalized = SurveyContext::from_entry(entry);
    let changed = !current.same_as(&normalized);
    (normalized, changed)
}

/// The three fields of a context, as values.
pub open spec fn context_fields(c: SurveyContext) -> (Option<Seq<char>>, Option<Seq<char>>, Option<Seq<char>>) {
    (opt_text(c.site), opt_text(c.sensor), opt_text(c.interface))
}

/// Whether every context of `cs` equals the first one (false for none).
pub open spec fn all_same_context(cs: Seq<SurveyContext>) -> bool {
    cs.len() > 0 && forall|i: int| 0 <= i < cs.len() ==> context_fields(#[trigger] cs[i]) == context_fields(cs[0])
}

impl SurveyContext {
    /// A context without any field (an unqualified survey).
    pub fn unqualified() -> (r: SurveyContext)
        ensures
            context_fields(r) == (None::<Seq<char>>, None::<Seq<char>>, None::<Seq<char>>),
    {
        SurveyContext { site: None, sensor: None, interface: None }
    }

    /// Whether no field is filled in.
    pub fn is_empty(&self) -> (r: bool)
        ensures
            r == (context_fields(*self) == (None::<Seq<char>>, None::<Seq<char>>, None::<Seq<char>>)),
    {
        self.site.is_none() && self.sensor.is_none() && self.interface.is_none()
    }

    /// A copy of the context.
    pub fn duplicate(&self) -> (r: SurveyContext)
        ensures
            context_fields(r) == context_fields(*self),
    {
        SurveyContext {
            site: copy_opt_text(&self.site),
            sensor: copy_opt_text(&self.sensor),
            interface: copy_opt_text(&self.interface),
        }
    }
}

/// The context of a survey merged from several files, given the context
/// each file declares: the context they all share, or an unqualified
/// context when two files were taken at different measurement points (a
/// merge cannot honestly inherit the first one) or when there is no file.
pub fn common_survey_context(contexts: &[SurveyContext]) -> (r: SurveyContext)
    ensures
        all_same_context(contexts@) ==> context_fields(r) == context_fields(contexts@[0]),
        !all_same_context(contexts@) ==> context_fields(r) == (
            None::<Seq<char>>,
            None::<Seq<char>>,
            None::<Seq<char>>,
        ),
{
    if contexts.len() == 0 {
        return SurveyContext::unqualified();
    }
    let mut i: usize = 1;
    while i < contexts.len()
        invariant
            1 <= i <= contexts@.len(),
            forall|j: int| 0 <= j < i ==> context_fields(#[trigger] contexts@[j]) == context_fields(contexts@[0]),
        decreases contexts@.len() - i,
    {
        if !contexts[i].same_as(&contexts[0]) {
            return SurveyContext::unqualified();
        }
        i = i + 1;
    }
    contexts[0].duplicate()
}

} // verus!
