//! The article model: a piece of content made of text and image
//! fragments, with its word count and estimated reading time.  Parsing of
//! the articles' textual source format is the loader's job, not this
//! module's: articles arrive here already structured.

use vstd::prelude::*;

verus! {

/// An image with its caption.
#[derive(Debug, Clone)]
pub struct Image {
    pub url: String,
    pub caption: String,
}

/// One body fragment of an article: a run of text or an image.
#[derive(Debug, Clone)]
pub enum Fragment {
    Text(String),
    Image(Image),
}

/// A full article.
#[derive(Debug, Clone)]
pub struct Article {
    pub id: String,
    pub topic: String,
    pub index: usize,
    pub blurb: String,
    pub title: String,
    pub image: Image,
    pub fragments: Vec<Fragment>,
}

/// ASCII whitespace, as the word counter sees it.
pub open spec fn is_ascii_ws(c: char) -> bool {
    c == ' ' || c == '\t' || c == '\n' || c == '\r' || c as u32 == 12
}

/// The number of whitespace-separated words among the first `n`
/// characters: one word begins at every non-whitespace character that
/// follows whitespace or starts the text.
pub open spec fn count_words_upto(s: Seq<char>, n: int) -> int
    decreases n,
{
    if n <= 0 {
        0
    } else if !is_ascii_ws(s[n - 1]) && (n - 1 == 0 || is_ascii_ws(s[n - 2])) {
        count_words_upto(s, n - 1) + 1
    } else {
        count_words_upto(s, n - 1)
    }
}

/// The number of whitespace-separated words in a text.
pub open spec fn count_words(s: Seq<char>) -> int {
    count_words_upto(s, s.len() as int)
}

/// The total word count of the first `n` fragments; image fragments
/// count nothing.
pub open spec fn fragments_words(fs: Seq<Fragment>, n: int) -> int
    decreases n,
{
    if n <= 0 {
        0
    } else {
        fragments_words(fs, n - 1) + match fs[n - 1] {
            Fragment::Text(t) => count_words(t@),
            Fragment::Image(_) => 0,
        }
    }
}

/// The word counter never counts more than one word per character.
pub proof fn lemma_count_words_bound(s: Seq<char>, n: int)
    requires
        0 <= n,
    ensures
        0 <= count_words_upto(s, n) <= n,
    decreases n,
{
    if n > 0 {
        lemma_count_words_bound(s, n - 1);
    }
}

impl Fragment {
    /// The fragment's text, if it is a text fragment.
    pub fn as_text(&self) -> (r: Option<&String>)
        ensures
            match self {
                Fragment::Text(t) => r == Some(t),
                Fragment::Image(_) => r is None,
            },
    {
        if let Fragment::Text(t) = self {
            Some(t)
        } else {
            None
        }
    }
}

/// The number of whitespace-separated words in a text.
fn count_words_exec(s: &String) -> (r: usize)
    ensures
        r as int == count_words(s@),
{
    let n = s.as_str().unicode_len();
    let mut count: usize = 0;
    let mut prev_ws = true;
    let mut i: usize = 0;
    proof {
        lemma_count_words_bound(s@, n as int);
    }
    while i < n
        invariant
            n == s@.len(),
            0 <= i <= n,
            count as int == count_words_upto(s@, i as int),
            count <= i,
            prev_ws == (i == 0 || is_ascii_ws(s@[i as int - 1])),
        decreases n - i,
    {
        let c = s.as_str().get_char(i);
        let ws = c == ' ' || c == '\t' || c == '\n' || c == '\r' || c as u32 == 12;
        if !ws && prev_ws {
            count = count + 1;
        }
        prev_ws = ws;
        i = i + 1;
    }
    count
}

impl Article {
    /// The article's total word count over its text fragments.
    pub fn words(&self) -> (r: usize)
        requires
            fragments_words(self.fragments@, self.fragments@.len() as int) <= usize::MAX,
        ensures
            r as int == fragments_words(self.fragments@, self.fragments@.len() as int),
    {
        let n = self.fragments.len();
        let mut total: usize = 0;
        let mut k: usize = 0;
        proof {
            lemma_fragments_words_mono(self.fragments@, 0, n as int);
        }
        while k < n
            invariant
                n == self.fragments@.len(),
                0 <= k <= n,
                total as int == fragments_words(self.fragments@, k as int),
                fragments_words(self.fragments@, n as int) <= usize::MAX,
            decreases n - k,
        {
            proof {
                lemma_fragments_words_mono(self.fragments@, k + 1, n as int);
                lemma_fragments_words_step_nonneg(self.fragments@, k as int);
            }
            match &self.fragments[k] {
                Fragment::Text(t) => {
                    let w = count_words_exec(t);
                    total = total + w;
                },
                Fragment::Image(_) => {},
            }
            k = k + 1;
        }
        total
    }

    /// The estimated reading time in minutes, rounding up, at an average
    /// adult reading speed of 238 words per minute.
    pub fn reading_time(&self) -> (r: usize)
        requires
            fragments_words(self.fragments@, self.fragments@.len() as int) <= usize::MAX,
        ensures
            ({
                let w = fragments_words(self.fragments@, self.fragments@.len() as int);
                r as int == if w % 238 == 0 {
                    w / 238
                } else {
                    w / 238 + 1
                }
            }),
    {
        let w = self.words();
        if w % 238 == 0 {
            w / 238
        } else {
            w / 238 + 1
        }
    }
}

/// Word totals only grow as more fragments are counted.
pub proof fn lemma_fragments_words_mono(fs: Seq<Fragment>, a: int, b: int)
    requires
        0 <= a <= b,
    ensures
        fragments_words(fs, a) <= fragments_words(fs, b),
    decreases b - a,
{
    if a < b {
        lemma_fragments_words_mono(fs, a, b - 1);
        match fs[b - 1] {
            Fragment::Text(t) => {
                lemma_count_words_bound(t@, t@.len() as int);
            },
            Fragment::Image(_) => {},
        }
    }
}

/// One more fragment never shrinks the total.
pub proof fn lemma_fragments_words_step_nonneg(fs: Seq<Fragment>, k: int)
    requires
        0 <= k,
    ensures
        fragments_words(fs, k) <= fragments_words(fs, k + 1),
        0 <= fragments_words(fs, k),
{
    lemma_fragments_words_mono(fs, k, k + 1);
    lemma_fragments_words_mono(fs, 0, k);
}

} // verus!
