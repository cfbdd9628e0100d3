//! The analyzer registry: a store from analyzer names to configured
//! pipelines. Lookups hand out an independent copy of the stored analyzer
//! with the same meaning and shape.

use vstd::prelude::*;
use vstd::string::StringExecFns;
use crate::analyzer::{
    Analyzer, BoxableAnalyzer, BoxedAnalyzer, ChainAnalyzer, JapaneseTokenizer, LowerCaser,
    RawTokenizer, RemoveLongFilter, SimpleTokenizer, Stemmer, TokenBufferStream, TokenStream,
    TokenView, box_analyzer, lemma_filter_tokens_congruence,
};

verus! {

/// One of the pipelines the registry can hold.
pub enum StoredAnalyzer {
    /// The text unprocessed, as one token.
    Raw(BoxableAnalyzer<RawTokenizer>),
    /// Alphanumeric runs, length-limited, lowercased.
    Simple(
        BoxableAnalyzer<
            ChainAnalyzer<LowerCaser, ChainAnalyzer<RemoveLongFilter, SimpleTokenizer>>,
        >,
    ),
    /// The simple pipeline followed by English stemming.
    EnStem(
        BoxableAnalyzer<
            ChainAnalyzer<
                Stemmer,
                ChainAnalyzer<LowerCaser, ChainAnalyzer<RemoveLongFilter, SimpleTokenizer>>,
            >,
        >,
    ),
    /// Character tokens with a length limit.
    Ja(BoxableAnalyzer<ChainAnalyzer<RemoveLongFilter, JapaneseTokenizer>>),
}

/// The shape of a stored pipeline: its variant and its length limit.
pub enum StoredKind {
    /// The raw pipeline.
    Raw,
    /// The simple pipeline with its length limit.
    Simple(int),
    /// The stemming pipeline with its length limit.
    EnStem(int),
    /// The character pipeline with its length limit.
    Ja(int),
}

/// The shape of a stored analyzer.
pub open spec fn skind(sa: StoredAnalyzer) -> StoredKind {
    match sa {
        StoredAnalyzer::Raw(_) => StoredKind::Raw,
        StoredAnalyzer::Simple(a) => StoredKind::Simple(a.sinner().tail.head.slimit()),
        StoredAnalyzer::EnStem(a) => StoredKind::EnStem(a.sinner().tail.tail.head.slimit()),
        StoredAnalyzer::Ja(a) => StoredKind::Ja(a.sinner().head.slimit()),
    }
}

/// The tokens a stored analyzer produces for one text.
pub open spec fn stokens_of_stored(sa: StoredAnalyzer, text: Seq<char>) -> Seq<TokenView> {
    match sa {
        StoredAnalyzer::Raw(a) => a.stokens_of(text),
        StoredAnalyzer::Simple(a) => a.stokens_of(text),
        StoredAnalyzer::EnStem(a) => a.stokens_of(text),
        StoredAnalyzer::Ja(a) => a.stokens_of(text),
    }
}

impl StoredAnalyzer {
    /// Tokenises one text.
    pub fn token_stream(&self, text: &str) -> (r: TokenBufferStream)
        requires
            text@.len() < usize::MAX,
        ensures
            r.scur() == -1,
            crate::analyzer::tviews(r.stokens()) == stokens_of_stored(*self, text@),
    {
        match self {
            StoredAnalyzer::Raw(a) => a.token_stream(text),
            StoredAnalyzer::Simple(a) => a.token_stream(text),
            StoredAnalyzer::EnStem(a) => a.token_stream(text),
            StoredAnalyzer::Ja(a) => a.token_stream(text),
        }
    }

    /// Tokenises several texts as one stream with cumulative byte offsets.
    pub fn token_stream_texts(&self, texts: &Vec<String>) -> (r: TokenBufferStream)
        requires
            forall|k: int| 0 <= k < texts@.len() ==> (#[trigger] texts@[k])@.len() < usize::MAX,
        ensures
            r.scur() == -1,
    {
        match self {
            StoredAnalyzer::Raw(a) => a.token_stream_texts(texts),
            StoredAnalyzer::Simple(a) => a.token_stream_texts(texts),
            StoredAnalyzer::EnStem(a) => a.token_stream_texts(texts),
            StoredAnalyzer::Ja(a) => a.token_stream_texts(texts),
        }
    }

    /// An independent copy of the stored analyzer, with the same shape and
    /// the same meaning: each pipeline is rebuilt around its own length
    /// limit.
    pub fn boxed_clone(&self) -> (r: StoredAnalyzer)
        ensures
            skind(r) == skind(*self),
            forall|t: Seq<char>|
                #[trigger] stokens_of_stored(r, t) == stokens_of_stored(*self, t),
    {
        match self {
            StoredAnalyzer::Raw(_) => {
                let r = StoredAnalyzer::Raw(box_analyzer(RawTokenizer));
                r
            },
            StoredAnalyzer::Simple(a) => {
                let lim = a.inner_ref().tail.head.limit_value();
                let built = box_analyzer(
                    SimpleTokenizer.filter(RemoveLongFilter::limit(lim)).filter(LowerCaser),
                );
                let r = StoredAnalyzer::Simple(built);
                proof {
                    let c0 = a.sinner();
                    let c1 = built.sinner();
                    assert(c1.tail.head.slimit() == c0.tail.head.slimit());
                    assert forall|t: Seq<char>|
                        #[trigger] stokens_of_stored(r, t) == stokens_of_stored(*self, t) by {
                        let base = crate::analyzer::simple_tokens(t, 0, 0);
                        lemma_filter_tokens_congruence(
                            base,
                            |tok: TokenView| tok.term.len() < c1.tail.head.slimit(),
                            |tok: TokenView| tok.term.len() < c0.tail.head.slimit(),
                        );
                    }
                }
                r
            },
            StoredAnalyzer::EnStem(a) => {
                let lim = a.inner_ref().tail.tail.head.limit_value();
                let built = box_analyzer(
                    SimpleTokenizer.filter(RemoveLongFilter::limit(lim)).filter(LowerCaser).filter(
                        Stemmer::new(),
                    ),
                );
                let r = StoredAnalyzer::EnStem(built);
                proof {
                    let c0 = a.sinner();
                    let c1 = built.sinner();
                    assert(c1.tail.tail.head.slimit() == c0.tail.tail.head.slimit());
                    assert forall|t: Seq<char>|
                        #[trigger] stokens_of_stored(r, t) == stokens_of_stored(*self, t) by {
                        let base = crate::analyzer::simple_tokens(t, 0, 0);
                        lemma_filter_tokens_congruence(
                            base,
                            |tok: TokenView| tok.term.len() < c1.tail.tail.head.slimit(),
                            |tok: TokenView| tok.term.len() < c0.tail.tail.head.slimit(),
                        );
                    }
                }
                r
            },
            StoredAnalyzer::Ja(a) => {
                let lim = a.inner_ref().head.limit_value();
                let built = box_analyzer(
                    JapaneseTokenizer.filter(RemoveLongFilter::limit(lim)),
                );
                let r = StoredAnalyzer::Ja(built);
                proof {
                    let c0 = a.sinner();
                    let c1 = built.sinner();
                    assert(c1.head.slimit() == c0.head.slimit());
                    assert forall|t: Seq<char>|
                        #[trigger] stokens_of_stored(r, t) == stokens_of_stored(*self, t) by {
                        let base = crate::analyzer::char_tokens(t, 0, 0);
                        lemma_filter_tokens_congruence(
                            base,
                            |tok: TokenView| tok.term.len() < c1.head.slimit(),
                            |tok: TokenView| tok.term.len() < c0.head.slimit(),
                        );
                    }
                }
                r
            },
        }
    }
}

/// The store of configured analyzers, by name.
pub struct AnalyzerManager {
    analyzers: Vec<(String, StoredAnalyzer)>,
}

impl AnalyzerManager {
    /// The registered bindings: name and pipeline shape, oldest first.
    pub closed spec fn sentries(&self) -> Seq<(Seq<char>, StoredKind)> {
        Seq::new(self.analyzers@.len(), |i: int| (self.analyzers@[i].0@, skind(
            self.analyzers@[i].1,
        )))
    }

    /// The shape bound to `name`: the last registration wins.
    pub open spec fn slookup(entries: Seq<(Seq<char>, StoredKind)>, name: Seq<char>) -> Option<
        StoredKind,
    >
        decreases entries.len(),
    {
        if entries.len() == 0 {
            None
        } else if entries.last().0 == name {
            Some(entries.last().1)
        } else {
            Self::slookup(entries.drop_last(), name)
        }
    }

    /// An empty registry.
    pub fn empty() -> (r: AnalyzerManager)
        ensures
            r.sentries() =~= Seq::<(Seq<char>, StoredKind)>::empty(),
    {
        AnalyzerManager { analyzers: Vec::new() }
    }

    /// Registers an analyzer under a name; a later registration under the
    /// same name shadows the earlier one, other names are untouched.
    pub fn register(&mut self, analyzer_name: &str, analyzer: StoredAnalyzer)
        ensures
            final(self).sentries() =~= old(self).sentries().push(
                (analyzer_name@, skind(analyzer)),
            ),
    {
        let owned: String = String::from_str(analyzer_name);
        self.analyzers.push((owned, analyzer));
        proof {
            assert(final(self).sentries() =~= old(self).sentries().push(
                (analyzer_name@, skind(analyzer)),
            ));
        }
    }

    /// Fetches an independent copy of the analyzer registered under a name:
    /// present exactly when the name is bound, and of the bound shape.
    pub fn get(&self, analyzer_name: &str) -> (r: Option<StoredAnalyzer>)
        ensures
            match r {
                Some(sa) => Self::slookup(self.sentries(), analyzer_name@) == Some(skind(sa)),
                None => Self::slookup(self.sentries(), analyzer_name@) is None,
            },
    {
        let owned: String = String::from_str(analyzer_name);
        let n = self.analyzers.len();
        let mut i: usize = n;
        proof {
            assert(self.sentries().take(n as int) =~= self.sentries());
        }
        while i > 0
            invariant
                i <= n,
                n == self.analyzers@.len(),
                owned@ == analyzer_name@,
                Self::slookup(self.sentries(), analyzer_name@) == Self::slookup(
                    self.sentries().take(i as int),
                    analyzer_name@,
                ),
            decreases i,
        {
            proof {
                assert(self.sentries().take(i as int).last() == self.sentries()[i - 1]);
                assert(self.sentries().take(i as int).drop_last() =~= self.sentries().take(
                    i - 1,
                ));
            }
            if self.analyzers[i - 1].0.eq(&owned) {
                return Some(self.analyzers[i - 1].1.boxed_clone());
            }
            i = i - 1;
        }
        proof {
            assert(self.sentries().take(0) =~= Seq::<(Seq<char>, StoredKind)>::empty());
        }
        None
    }
}

impl Default for AnalyzerManager {
    /// A registry prepopulated with the stock analyzers: `raw` the raw
    /// pipeline, `default` the simple pipeline with a length limit of 40 and
    /// lowercasing, `en_stem` the default pipeline plus English stemming,
    /// `ja` character tokens with the length limit of 40.
    fn default() -> (r: AnalyzerManager)
        ensures
            AnalyzerManager::slookup(r.sentries(), "raw"@) == Some(StoredKind::Raw),
            AnalyzerManager::slookup(r.sentries(), "default"@) == Some(StoredKind::Simple(40)),
            AnalyzerManager::slookup(r.sentries(), "en_stem"@) == Some(StoredKind::EnStem(40)),
            AnalyzerManager::slookup(r.sentries(), "ja"@) == Some(StoredKind::Ja(40)),
    {
        let mut manager = AnalyzerManager::empty();
        manager.register("raw", StoredAnalyzer::Raw(box_analyzer(RawTokenizer)));
        manager.register(
            "default",
            StoredAnalyzer::Simple(
                box_analyzer(
                    SimpleTokenizer.filter(RemoveLongFilter::limit(40)).filter(LowerCaser),
                ),
            ),
        );
        manager.register(
            "en_stem",
            StoredAnalyzer::EnStem(
                box_analyzer(
                    SimpleTokenizer.filter(RemoveLongFilter::limit(40)).filter(LowerCaser).filter(
                        Stemmer::new(),
                    ),
                ),
            ),
        );
        manager.register(
            "ja",
            StoredAnalyzer::Ja(
                box_analyzer(JapaneseTokenizer.filter(RemoveLongFilter::limit(40))),
            ),
        );
        proof {
            reveal_with_fuel(AnalyzerManager::slookup, 5);
            reveal_strlit("raw");
            reveal_strlit("default");
            reveal_strlit("en_stem");
            reveal_strlit("ja");
            let s4 = manager.sentries();
            let s3 = s4.drop_last();
            let s2 = s3.drop_last();
            let s1 = s2.drop_last();
            assert("ja"@ != "en_stem"@ && "ja"@ != "default"@ && "ja"@ != "raw"@ && "en_stem"@
                != "default"@ && "en_stem"@ != "raw"@ && "default"@ != "raw"@) by {
                assert("raw"@.len() == 3 && "default"@.len() == 7 && "en_stem"@.len() == 7
                    && "ja"@.len() == 2);
                assert("en_stem"@[0] == 'e' && "default"@[0] == 'd');
            }
        }
        manager
    }
}

} // verus!
