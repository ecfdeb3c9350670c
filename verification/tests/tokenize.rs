use jieba_rs::{Jieba, Tag, Token, TokenizeMode};

fn dict() -> &'static str {
    full_dict()
}

fn full_dict() -> &'static str {
    "我们 5000\n中 600\n出 600\n了 3000 ul\n一个 4000\n叛徒 900\n我 5000 r\n是 4000 v\n\
来到 1000\n北京 3000\n清华大学 2000\n清华 1500\n华大 50\n大学 2500\n来 800\n到 800\n\
北 200\n京 200\n清 100\n华 150\n大 900\n学 700\n网 400\n球 300\n拍 250\n卖 300\n会 1500 v\n\
网球 1000\n网球拍 400\n球拍 500\n拍卖 600\n拍卖会 350\n他 4000\n网易 700\n大厦 600\n\
南京 2000\n南京市 1200\n京市 50\n长江 1500\n大桥 800\n长江大桥 400\n小明 300\n硕士 900\n\
毕业 1200\n于 2000\n中国 6000\n科学 2000\n学院 1500 n\n科学院 700\n中国科学院 500\n\
计算 1200\n计算所 200\n后 1500 f\n在 6000 p\n日本 3000\n京都 800\n日本京都大学 150\n深造 300\n\
拖拉机 500 n\n手扶拖拉机 100 n\n专业 1000 n\n的 8000 uj\n不用 600 v\n多久 300 m\n就 3000 d\n\
升职 200 v\n加薪 150 nr\n当上 200 t\n走上 250 v\n人生 800 n\n巅峰 300 n\n今天 1500 t\n\
纽约 800 ns\n天气 1000 n\n真好 200 d\n啊 1500 zg\n京华 80 nz\n大酒店 300 n\n经理 900 n\n\
吃 2000 v\n一只 400 m\n北京烤鸭 250 n\n我是 0\n吃了 0\n后在 0\n我就会 0\n永和 300\n\
服装 900\n饰品 400\n有限公司 600\n江 100\n国 100\n本 100\n都 100\n"
}

fn tok(word: &str, start: usize, end: usize) -> Token {
    Token {
        word: word.to_string(),
        start,
        end,
    }
}

fn tg(word: &str, tag: &str) -> Tag {
    Tag {
        word: word.to_string(),
        tag: tag.to_string(),
    }
}

#[test]
fn test_tokenize() {
    let jieba = Jieba::new(dict()).unwrap();
    let tokens = jieba.tokenize("南京市长江大桥", TokenizeMode::Default, false);
    assert_eq!(tokens, vec![tok("南京市", 0, 3), tok("长江大桥", 3, 7)]);

    let tokens = jieba.tokenize("南京市长江大桥", TokenizeMode::Search, false);
    assert_eq!(
        tokens,
        vec![
            tok("南京", 0, 2),
            tok("京市", 1, 3),
            tok("南京市", 0, 3),
            tok("长江", 3, 5),
            tok("大桥", 5, 7),
            tok("长江大桥", 3, 7)
        ]
    );

    let tokens = jieba.tokenize("我们中出了一个叛徒", TokenizeMode::Default, false);
    assert_eq!(
        tokens,
        vec![
            tok("我们", 0, 2),
            tok("中", 2, 3),
            tok("出", 3, 4),
            tok("了", 4, 5),
            tok("一个", 5, 7),
            tok("叛徒", 7, 9)
        ]
    );
    let tokens = jieba.tokenize("我们中出了一个叛徒", TokenizeMode::Default, true);
    assert_eq!(
        tokens,
        vec![
            tok("我们", 0, 2),
            tok("中出", 2, 4),
            tok("了", 4, 5),
            tok("一个", 5, 7),
            tok("叛徒", 7, 9)
        ]
    );

    let tokens = jieba.tokenize("永和服装饰品有限公司", TokenizeMode::Default, true);
    assert_eq!(
        tokens,
        vec![
            tok("永和", 0, 2),
            tok("服装", 2, 4),
            tok("饰品", 4, 6),
            tok("有限公司", 6, 10)
        ]
    );
}

#[test]
fn test_tokenize_default_is_contiguous() {
    let jieba = Jieba::new(dict()).unwrap();
    let input = "今天纽约的天气真好啊，我们中出了一个叛徒abc";
    let tokens = jieba.tokenize(input, TokenizeMode::Default, true);
    assert_eq!(tokens[0].start, 0);
    for i in 0..tokens.len() - 1 {
        assert_eq!(tokens[i].end, tokens[i + 1].start);
    }
    let widths: usize = tokens.iter().map(|t| t.word.chars().count()).sum();
    assert_eq!(widths, input.chars().count());
    assert_eq!(tokens.last().unwrap().end, input.chars().count());
}

#[test]
fn test_tokenize_search_extras_are_words() {
    let jieba = Jieba::new(dict()).unwrap();
    let input = "小明硕士毕业于中国科学院计算所";
    let plain: Vec<String> = jieba
        .tokenize(input, TokenizeMode::Default, true)
        .into_iter()
        .map(|t| t.word)
        .collect();
    for t in jieba.tokenize(input, TokenizeMode::Search, true) {
        if !plain.contains(&t.word) {
            // every extra gram is a dictionary word
            assert!(jieba.contains(&t.word).is_some());
        }
    }
}

#[test]
fn test_tag() {
    let jieba = Jieba::new(dict()).unwrap();
    let tags = jieba.tag(
        "我是拖拉机学院手扶拖拉机专业的。不用多久，我就会升职加薪，当上CEO，走上人生巅峰。",
        true,
    );
    assert_eq!(
        tags,
        vec![
            tg("我", "r"),
            tg("是", "v"),
            tg("拖拉机", "n"),
            tg("学院", "n"),
            tg("手扶拖拉机", "n"),
            tg("专业", "n"),
            tg("的", "uj"),
            tg("。", "x"),
            tg("不用", "v"),
            tg("多久", "m"),
            tg("，", "x"),
            tg("我", "r"),
            tg("就", "d"),
            tg("会", "v"),
            tg("升职", "v"),
            tg("加薪", "nr"),
            tg("，", "x"),
            tg("当上", "t"),
            tg("CEO", "eng"),
            tg("，", "x"),
            tg("走上", "v"),
            tg("人生", "n"),
            tg("巅峰", "n"),
            tg("。", "x")
        ]
    );

    let tags = jieba.tag("今天纽约的天气真好啊，京华大酒店的张尧经理吃了一只北京烤鸭。", true);
    assert_eq!(
        tags,
        vec![
            tg("今天", "t"),
            tg("纽约", "ns"),
            tg("的", "uj"),
            tg("天气", "n"),
            tg("真好", "d"),
            tg("啊", "zg"),
            tg("，", "x"),
            tg("京华", "nz"),
            tg("大酒店", "n"),
            tg("的", "uj"),
            tg("张尧", "x"),
            tg("经理", "n"),
            tg("吃", "v"),
            tg("了", "ul"),
            tg("一只", "m"),
            tg("北京烤鸭", "n"),
            tg("。", "x")
        ]
    );
}

#[test]
fn test_tag_words_match_cut() {
    let jieba = Jieba::new(dict()).unwrap();
    let input = "我们中出了一个叛徒，当上CEO123。";
    for hmm in [false, true] {
        let words = jieba.cut(input, hmm);
        let tags = jieba.tag(input, hmm);
        let tag_words: Vec<String> = tags.into_iter().map(|t| t.word).collect();
        assert_eq!(words, tag_words);
    }
}

#[test]
fn test_tag_number_and_empty_tag() {
    let jieba = Jieba::new(dict()).unwrap();
    let tags = jieba.tag("2023年", false);
    // the digits merge into one word tagged as a number
    assert_eq!(tags[0], tg("2023", "m"));
    let tags = jieba.tag("永和", false);
    // a dictionary word without a tag keeps the empty tag
    assert_eq!(tags, vec![tg("永和", "")]);
}
