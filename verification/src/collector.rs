//! Owns one source file's text, accumulates checker suggestions resolved
//! through a mapping, discards unmappable ones, and produces the final
//! ordered list of diagnostics for that file.

use vstd::prelude::*;

use crate::mapping::span_ranges;
use crate::mapping::MappedSpan;
use crate::mapping::Mapping;
use crate::suggestion::Diagnostic;
use crate::suggestion::Suggestion;

verus! {

/// A suggestion is mappable when its resolution yields at least one source
/// range.
pub open spec fn mappable(sg: Suggestion, spans: Seq<MappedSpan>, src: Seq<char>) -> bool {
    span_ranges(spans, 0, sg.start as int, sg.end as int, src).len() > 0
}

/// The subsequence of suggestions that resolve to at least one source range,
/// in their original order.
pub open spec fn kept_suggestions(
    suggs: Seq<Suggestion>,
    spans: Seq<MappedSpan>,
    src: Seq<char>,
) -> Seq<Suggestion>
    decreases suggs.len(),
{
    if suggs.len() == 0 {
        Seq::empty()
    } else {
        let rest = kept_suggestions(suggs.drop_last(), spans, src);
        if mappable(suggs.last(), spans, src) {
            rest.push(suggs.last())
        } else {
            rest
        }
    }
}

/// The diagnostic carries the suggestion's payload and its resolved source
/// ranges.
pub open spec fn diagnostic_matches(
    d: Diagnostic,
    sg: Suggestion,
    spans: Seq<MappedSpan>,
    src: Seq<char>,
) -> bool {
    &&& d.locations@ == span_ranges(spans, 0, sg.start as int, sg.end as int, src)
    &&& d.message == sg.message
    &&& d.replacements@ == sg.replacements@
    &&& d.rule_description == sg.rule_description
    &&& d.rule_id == sg.rule_id
}

/// Copies a list of strings.
fn clone_strings(v: &Vec<String>) -> (r: Vec<String>)
    ensures
        r@ == v@,
{
    let mut r: Vec<String> = Vec::new();
    let mut i: usize = 0;
    while i < v.len()
        invariant
            i <= v@.len(),
            r@ == v@.take(i as int),
        decreases v@.len() - i,
    {
        r.push(v[i].clone());
        proof {
            assert(r@ =~= v@.take(i as int + 1));
        }
        i = i + 1;
    }
    proof {
        assert(v@.take(i as int) =~= v@);
    }
    r
}

/// Collects the diagnostics of one source file. The collector owns the
/// file's text for its whole lifetime and never mutates it; suggestions
/// whose resolution yields no source range are silently dropped, by policy.
pub struct FileCollector {
    pub source: String,
    pub diagnostics: Vec<Diagnostic>,
}

impl FileCollector {
    /// Every accumulated diagnostic has at least one location.
    pub open spec fn wf(&self) -> bool {
        forall|k: int|
            0 <= k < self.diagnostics@.len() ==> (#[trigger] self.diagnostics@[k]).locations@.len()
                > 0
    }

    pub fn new(source: String) -> (r: Self)
        ensures
            r.wf(),
            r.source == source,
            r.diagnostics@.len() == 0,
    {
        FileCollector { source, diagnostics: Vec::new() }
    }

    /// Resolves each suggestion through `mapping` and appends a diagnostic
    /// for exactly those whose resolution yields at least one range, in
    /// order. The source text is left untouched.
    #[verifier::loop_isolation(false)]
    pub fn add(&mut self, suggestions: &[Suggestion], mapping: Mapping)
        requires
            old(self).wf(),
            mapping.valid_for(old(self).source@),
        ensures
            final(self).wf(),
            final(self).source == old(self).source,
            ({
                let kept = kept_suggestions(suggestions@, mapping.spans@, old(self).source@);
                let n0 = old(self).diagnostics@.len();
                &&& final(self).diagnostics@.len() == n0 + kept.len()
                &&& (forall|k: int|
                    0 <= k < n0 ==> final(self).diagnostics@[k] == old(self).diagnostics@[k])
                &&& (forall|k: int|
                    0 <= k < kept.len() ==> diagnostic_matches(
                        #[trigger] final(self).diagnostics@[n0 + k],
                        kept[k],
                        mapping.spans@,
                        old(self).source@,
                    ))
            }),
    {
        let ghost src = self.source@;
        let ghost spans = mapping.spans@;
        let ghost n0 = self.diagnostics@.len();
        let ghost old_diags = self.diagnostics@;
        let mut j: usize = 0;
        proof {
            assert(suggestions@.take(0) =~= Seq::<Suggestion>::empty());
        }
        while j < suggestions.len()
            invariant
                j <= suggestions@.len(),
                self.source == old(self).source,
                self.wf(),
                ({
                    let kept = kept_suggestions(suggestions@.take(j as int), spans, src);
                    &&& self.diagnostics@.len() == n0 + kept.len()
                    &&& (forall|k: int| 0 <= k < n0 ==> self.diagnostics@[k] == old_diags[k])
                    &&& (forall|k: int|
                        0 <= k < kept.len() ==> diagnostic_matches(
                            #[trigger] self.diagnostics@[n0 + k],
                            kept[k],
                            spans,
                            src,
                        ))
                }),
            decreases suggestions@.len() - j,
        {
            proof {
                assert(suggestions@.take(j as int + 1).drop_last() =~= suggestions@.take(j as int));
                assert(suggestions@.take(j as int + 1).last() == suggestions@[j as int]);
            }
            let sg = &suggestions[j];
            let locations = mapping.location(sg, self.source.as_str());
            if locations.len() > 0 {
                let d = Diagnostic {
                    locations,
                    message: sg.message.clone(),
                    replacements: clone_strings(&sg.replacements),
                    rule_description: sg.rule_description.clone(),
                    rule_id: sg.rule_id.clone(),
                };
                self.diagnostics.push(d);
            }
            j = j + 1;
        }
        proof {
            assert(suggestions@.take(j as int) =~= suggestions@);
        }
    }

    /// Yields the untouched source text together with the accumulated
    /// diagnostics; none of them has an empty location list.
    pub fn finish(self) -> (r: (String, Vec<Diagnostic>))
        requires
            self.wf(),
        ensures
            r.0 == self.source,
            r.1 == self.diagnostics,
            forall|k: int| 0 <= k < r.1@.len() ==> (#[trigger] r.1@[k]).locations@.len() > 0,
    {
        (self.source, self.diagnostics)
    }
}

} // verus!
