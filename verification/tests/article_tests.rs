use waratah::Article;
use waratah::Fragment;
use waratah::Image;
use waratah::ArticlePreviewLayout;

fn image() -> Image {
    Image { url: "/images/a.jpg".to_string(), caption: "a picture".to_string() }
}

fn article(fragments: Vec<Fragment>) -> Article {
    Article {
        id: "a".to_string(),
        topic: "news".to_string(),
        index: 1,
        blurb: "a blurb".to_string(),
        title: "a title".to_string(),
        image: image(),
        fragments,
    }
}

#[test]
fn as_text_returns_text_fragments_only() {
    let t = Fragment::Text("hello".to_string());
    let i = Fragment::Image(image());
    assert_eq!(t.as_text(), Some(&"hello".to_string()));
    assert_eq!(i.as_text(), None);
}

#[test]
fn words_counts_whitespace_separated_words() {
    let a = article(vec![
        Fragment::Text("one two  three".to_string()),
        Fragment::Image(image()),
        Fragment::Text("  four\nfive ".to_string()),
    ]);
    assert_eq!(a.words(), 5);
}

#[test]
fn words_of_an_empty_article_is_zero() {
    let a = article(Vec::new());
    assert_eq!(a.words(), 0);
}

#[test]
fn reading_time_rounds_up_at_238_words_per_minute() {
    let short = article(vec![Fragment::Text("just a few words".to_string())]);
    assert_eq!(short.reading_time(), 1);
    let mut many = String::new();
    for _ in 0..239 {
        many.push_str("word ");
    }
    let long = article(vec![Fragment::Text(many)]);
    assert_eq!(long.words(), 239);
    assert_eq!(long.reading_time(), 2);
    let exact = {
        let mut text = String::new();
        for _ in 0..238 {
            text.push_str("word ");
        }
        article(vec![Fragment::Text(text)])
    };
    assert_eq!(exact.reading_time(), 1);
}

#[test]
fn layout_builders_narrow_the_default() {
    let l = ArticlePreviewLayout::default();
    assert!(l.blurb && l.image && l.category);
    let l = l.without_blurb().without_image().without_category().hero().horizontal();
    assert!(!l.blurb && !l.image && !l.category);
    let plain = ArticlePreviewLayout::default();
    assert_eq!(plain, ArticlePreviewLayout::default());
    assert_ne!(plain, plain.hero());
}
