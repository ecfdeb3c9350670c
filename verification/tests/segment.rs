use jieba_rs::Jieba;

fn svec(xs: &[&str]) -> Vec<String> {
    xs.iter().map(|x| x.to_string()).collect()
}

fn dict() -> &'static str {
    "我们 5000\n中 600\n出 600\n了 3000 ul\n一个 4000\n叛徒 900\n我 5000 r\n是 4000 v\n\
来到 1000\n北京 3000\n清华大学 2000\n清华 1500\n华大 50\n大学 2500\n来 800\n到 800\n\
北 200\n京 200\n清 100\n华 150\n大 900\n学 700\n网 400\n球 300\n拍 250\n卖 300\n会 1500 v\n\
网球 1000\n网球拍 400\n球拍 500\n拍卖 600\n拍卖会 350\n他 4000\n网易 700\n大厦 600\n\
南京 2000\n南京市 1200\n京市 50\n长江 1500\n大桥 800\n长江大桥 400\n小明 300\n硕士 900\n\
毕业 1200\n于 2000\n中国 6000\n科学 2000\n学院 1500 n\n科学院 700\n中国科学院 500\n\
计算 1200\n计算所 200\n后 1500 f\n在 6000 p\n日本 3000\n京都 800\n日本京都大学 150\n深造 300\n\
拖拉机 500 n\n手扶拖拉机 100 n\n专业 1000 n\n的 8000 uj\n不用 600 v\n多久 300 m\n就 3000 d\n\
升职 200 v\n加薪 150 nr\n当上 200 t\n走上 250 v\n人生 800 n\n巅峰 300 n\n今天 1500 t\n\
纽约 800 ns\n天气 1000 n\n真好 200 d\n啊 1500 zg\n京华 80 nz\n大酒店 300 n\n经理 900 n\n\
吃 2000 v\n一只 400 m\n北京烤鸭 250 n\n我是 0\n吃了 0\n后在 0\n我就会 0\n永和 300\n\
服装 900\n饰品 400\n有限公司 600\n江 100\n国 100\n本 100\n都 100\n"
}

fn jieba() -> Jieba {
    Jieba::new(dict()).unwrap()
}

#[test]
fn test_init_with_default_dict() {
    let _ = jieba();
}

#[test]
fn test_split_matches() {
    let jieba = jieba();
    let input = "👪 PS: 我觉得开源有一个好处，就是能够敦促自己不断改进 👪，避免敞帚自珍";
    let words = jieba.cut(input, false);
    for w in &words {
        assert_eq!(w.is_empty(), false);
    }
    assert_eq!(words.concat(), input);
}

#[test]
fn test_split_matches_against_unicode_sip() {
    // the whole string is one Han-like block, supplementary plane included
    let input = "讥䶯䶰䶱䶲䶳䶴䶵𦡦";
    let bytes: Vec<u8> = input.as_bytes().to_vec();
    let end = jieba_rs::splitter::run_end_x(&bytes, 0, false, true);
    assert_eq!(end, bytes.len());
    let jieba = jieba();
    let words = jieba.cut(input, false);
    assert_eq!(words.concat(), input);
}

#[test]
fn test_dag() {
    let jieba = jieba();
    let sentence = "网球拍卖会";
    let dag = jieba.dag(&sentence.as_bytes().to_vec());
    assert_eq!(dag[0], vec![3, 6, 9]);
    assert_eq!(dag[3], vec![6, 9]);
    assert_eq!(dag[6], vec![9, 12, 15]);
    assert_eq!(dag[9], vec![12]);
    assert_eq!(dag[12], vec![15]);
}

#[test]
fn test_cut_all() {
    let jieba = jieba();
    let words = jieba.cut_all("abc网球拍卖会def");
    assert_eq!(
        words,
        svec(&[
            "abc",
            "网",
            "网球",
            "网球拍",
            "球",
            "球拍",
            "拍",
            "拍卖",
            "拍卖会",
            "卖",
            "会",
            "def"
        ])
    );

    let words = jieba.cut_all("我来到北京清华大学");
    assert_eq!(
        words,
        svec(&[
            "我",
            "来",
            "来到",
            "到",
            "北",
            "北京",
            "京",
            "清",
            "清华",
            "清华大学",
            "华",
            "华大",
            "大",
            "大学",
            "学"
        ])
    );
}

#[test]
fn test_cut_no_hmm() {
    let jieba = jieba();
    let words = jieba.cut("abc网球拍卖会def", false);
    assert_eq!(words, svec(&["abc", "网球", "拍卖会", "def"]));
}

#[test]
fn test_cut_with_hmm() {
    let jieba = jieba();
    let words = jieba.cut("我们中出了一个叛徒", false);
    assert_eq!(words, svec(&["我们", "中", "出", "了", "一个", "叛徒"]));
    let words = jieba.cut("我们中出了一个叛徒", true);
    assert_eq!(words, svec(&["我们", "中出", "了", "一个", "叛徒"]));
    let words = jieba.cut("我们中出了一个叛徒👪", true);
    assert_eq!(words, svec(&["我们", "中出", "了", "一个", "叛徒", "👪"]));

    let words = jieba.cut("我来到北京清华大学", true);
    assert_eq!(words, svec(&["我", "来到", "北京", "清华大学"]));

    let words = jieba.cut("他来到了网易杭研大厦", true);
    assert_eq!(words, svec(&["他", "来到", "了", "网易", "杭研", "大厦"]));
}

#[test]
fn test_cut_for_search() {
    let jieba = jieba();
    let words = jieba.cut_for_search("南京市长江大桥", true);
    assert_eq!(
        words,
        svec(&["南京", "京市", "南京市", "长江", "大桥", "长江大桥"])
    );

    let words = jieba.cut_for_search("小明硕士毕业于中国科学院计算所，后在日本京都大学深造", true);
    assert_eq!(
        words,
        svec(&[
            "小明",
            "硕士",
            "毕业",
            "于",
            "中国",
            "科学",
            "学院",
            "科学院",
            "中国科学院",
            "计算",
            "计算所",
            "，",
            "后",
            "在",
            "日本",
            "京都",
            "大学",
            "日本京都大学",
            "深造"
        ])
    );
}

#[test]
fn test_cut_empty_input() {
    let jieba = jieba();
    let words = jieba.cut("", true);
    assert_eq!(words, Vec::<String>::new());
    let words = jieba.cut_all("");
    assert_eq!(words, Vec::<String>::new());
}

#[test]
fn test_cut_is_deterministic() {
    let jieba = jieba();
    let a = jieba.cut("我们中出了一个叛徒abc在网球拍卖会", true);
    let b = jieba.cut("我们中出了一个叛徒abc在网球拍卖会", true);
    assert_eq!(a, b);
}

#[test]
fn test_cut_single_dictionary_word() {
    let jieba = jieba();
    assert_eq!(jieba.cut("南京市", false), svec(&["南京市"]));
    assert_eq!(jieba.cut("拖拉机", false), svec(&["拖拉机"]));
}

#[test]
fn test_cut_concatenates_to_input() {
    let jieba = jieba();
    for hmm in [false, true] {
        for s in [
            "我们中出了一个叛徒👪",
            "abc网球拍卖会def",
            "line one\r\nline two\t拍卖会",
            "",
            "。，！",
        ] {
            let words = jieba.cut(s, hmm);
            assert_eq!(words.concat(), s);
        }
    }
}

#[test]
fn test_gap_splitting() {
    let jieba = jieba();
    // a carriage return and newline stay one word; other gap characters
    // stand alone
    let words = jieba.cut("a\r\nb", false);
    assert_eq!(words, svec(&["a", "\r\n", "b"]));
    let words = jieba.cut("拍卖会! ?", false);
    assert_eq!(words, svec(&["拍卖会", "!", " ", "?"]));
    // in lattice mode runs of ASCII word characters stay together
    let words = jieba.cut_all("abc def!");
    assert_eq!(words, svec(&["abc", " ", "def", "!"]));
}
