use vstd::prelude::*;
use crate::directive::clone_directive;
use crate::directive::entries_model;
use crate::directive::pairs_model;
use crate::directive::Directive;
use crate::directive::GDirective;
use crate::directive::GEntry;
use crate::directive::QueueEntry;
use crate::directive::RepetitionSpec;
use crate::errors::SplitError;

verus! {

/// The queue that the first `i` parsed pairs flatten into: a count of `n`
/// unrolls into `n` single-shot entries, the unbounded form stays one entry
/// flagged `repeat_until_miss`, and a count of zero is a fault.
pub open spec fn expand_upto(pairs: Seq<(GDirective, RepetitionSpec)>, i: int) -> Result<
    Seq<GEntry>,
    SplitError,
>
    decreases i,
{
    if i <= 0 {
        Ok(Seq::empty())
    } else {
        match expand_upto(pairs, i - 1) {
            Err(e) => Err(e),
            Ok(q) => {
                let d = pairs[i - 1].0;
                match pairs[i - 1].1 {
                    RepetitionSpec::Count { times } => if times == 0 {
                        Err(SplitError::Repetition { token: (i - 1) as usize })
                    } else {
                        Ok(
                            q + Seq::new(
                                times as nat,
                                |k: int| GEntry {
                                    directive: d,
                                    repeat_until_miss: false,
                                    token: (i - 1) as usize,
                                },
                            ),
                        )
                    },
                    RepetitionSpec::Unbounded => Ok(
                        q.push(
                            GEntry { directive: d, repeat_until_miss: true, token: (i - 1) as usize },
                        ),
                    ),
                }
            },
        }
    }
}

/// The queue a whole parsed pair list flattens into.
pub open spec fn expand_model(pairs: Seq<(GDirective, RepetitionSpec)>) -> Result<
    Seq<GEntry>,
    SplitError,
> {
    expand_upto(pairs, pairs.len() as int)
}

proof fn lemma_expand_upto_err(pairs: Seq<(GDirective, RepetitionSpec)>, i: int, j: int)
    requires
        0 <= i <= j,
        expand_upto(pairs, i) is Err,
    ensures
        expand_upto(pairs, j) == expand_upto(pairs, i),
    decreases j - i,
{
    if i < j {
        lemma_expand_upto_err(pairs, i, j - 1);
    }
}

/// Flattens parsed pairs into the directive queue, per `expand_model`.
pub fn expand_directives(pairs: &Vec<(Directive, RepetitionSpec)>) -> (r: Result<
    Vec<QueueEntry>,
    SplitError,
>)
    ensures
        ({
            let m = expand_model(pairs_model(pairs@));
            match r {
                Ok(q) => m matches Ok(g) && entries_model(q@) == g,
                Err(e) => m matches Err(e2) && e == e2,
            }
        }),
{
    let ghost pm = pairs_model(pairs@);
    let mut out: Vec<QueueEntry> = Vec::new();
    proof {
        assert(entries_model(out@) =~= Seq::<GEntry>::empty());
    }
    let mut i: usize = 0;
    while i < pairs.len()
        invariant
            i <= pairs@.len(),
            pm == pairs_model(pairs@),
            expand_upto(pm, i as int) == Ok::<_, SplitError>(entries_model(out@)),
        decreases pairs@.len() - i,
    {
        proof {
            assert(pm[i as int] == (pairs@[i as int].0.model(), pairs@[i as int].1));
        }
        let (d, rep) = &pairs[i];
        match rep {
            RepetitionSpec::Count { times } => {
                if *times == 0 {
                    proof {
                        lemma_expand_upto_err(pm, i + 1 as int, pm.len() as int);
                    }
                    return Err(SplitError::Repetition { token: i });
                }
                let ghost prev = entries_model(out@);
                let ghost ge = GEntry {
                    directive: pm[i as int].0,
                    repeat_until_miss: false,
                    token: i,
                };
                let mut k: u64 = 0;
                while k < *times
                    invariant
                        k <= *times,
                        ge == (GEntry { directive: d.model(), repeat_until_miss: false, token: i }),
                        entries_model(out@) == prev + Seq::new(
                            k as nat,
                            |x: int| GEntry {
                                directive: ge.directive,
                                repeat_until_miss: false,
                                token: ge.token,
                            },
                        ),
                    decreases *times - k,
                {
                    let e = QueueEntry {
                        directive: clone_directive(d),
                        repeat_until_miss: false,
                        token: i,
                    };
                    proof {
                        assert(e.model() == ge);
                        assert(entries_model(out@.push(e)) =~= entries_model(out@).push(e.model()));
                        assert((prev + Seq::new(
                            k as nat,
                            |x: int| GEntry {
                                directive: ge.directive,
                                repeat_until_miss: false,
                                token: ge.token,
                            },
                        )).push(ge) =~= prev + Seq::new(
                            (k + 1) as nat,
                            |x: int| GEntry {
                                directive: ge.directive,
                                repeat_until_miss: false,
                                token: ge.token,
                            },
                        ));
                    }
                    out.push(e);
                    k = k + 1;
                }
                proof {
                    assert(Seq::new(
                        *times as nat,
                        |x: int| GEntry {
                            directive: ge.directive,
                            repeat_until_miss: false,
                            token: ge.token,
                        },
                    ) =~= Seq::new(
                        *times as nat,
                        |x: int| GEntry {
                            directive: pm[i as int].0,
                            repeat_until_miss: false,
                            token: i,
                        },
                    ));
                }
            },
            RepetitionSpec::Unbounded => {
                let e = QueueEntry {
                    directive: clone_directive(d),
                    repeat_until_miss: true,
                    token: i,
                };
                proof {
                    assert(entries_model(out@.push(e)) =~= entries_model(out@).push(e.model()));
                }
                out.push(e);
            },
        }
        i = i + 1;
    }
    Ok(out)
}

} // verus!
