use awabi::dic::{CharProperty, DicError, Matrix, MeCabDic};
use awabi::tokenizer::Tokenizer;

// ---------------------------------------------------------------------------
// Dictionary images built in memory.

/// One token record: left id, right id, part-of-speech id, word cost, feature.
type Token = (u16, u16, u16, i16, &'static str);

struct Trie {
    base: Vec<i32>,
    check: Vec<u32>,
    used: Vec<bool>,
}

impl Trie {
    fn new() -> Trie {
        Trie { base: vec![0; 64], check: vec![0; 64], used: vec![false; 64] }
    }

    fn reserve(&mut self, len: usize) {
        if self.base.len() < len {
            self.base.resize(len, 0);
            self.check.resize(len, 0);
            self.used.resize(len, false);
        }
    }

    /// Places the node whose keys are `keys[lo..hi]`, all equal on their first
    /// `depth` bytes, and returns its base.
    fn place(&mut self, keys: &[(Vec<u8>, i32)], lo: usize, hi: usize, depth: usize) -> i32 {
        let mut groups: Vec<(usize, usize, usize)> = Vec::new();
        let mut i = lo;
        while i < hi {
            let code = if keys[i].0.len() == depth { 0 } else { keys[i].0[depth] as usize + 1 };
            let mut j = i + 1;
            while j < hi {
                let other = if keys[j].0.len() == depth { 0 } else { keys[j].0[depth] as usize + 1 };
                if other != code {
                    break;
                }
                j += 1;
            }
            groups.push((code, i, j));
            i = j;
        }
        let mut begin = 1;
        loop {
            self.reserve(begin + 258);
            if !self.used[begin] && groups.iter().all(|g| self.check[begin + g.0] == 0) {
                break;
            }
            begin += 1;
        }
        self.used[begin] = true;
        for g in groups.iter() {
            self.check[begin + g.0] = begin as u32;
        }
        for g in groups.iter() {
            if g.0 == 0 {
                self.base[begin] = -keys[g.1].1 - 1;
            } else {
                let child = self.place(keys, g.1, g.2, depth + 1);
                self.base[begin + g.0] = child;
            }
        }
        begin as i32
    }
}

fn push_u16(out: &mut Vec<u8>, v: u16) {
    out.extend_from_slice(&v.to_le_bytes());
}

fn push_u32(out: &mut Vec<u8>, v: u32) {
    out.extend_from_slice(&v.to_le_bytes());
}

/// The image of a dictionary that holds `words`, each with its token records.
/// `first_token` empty records precede the first word's run.
fn dictionary(words: &[(&str, Vec<Token>)], first_token: usize) -> Vec<u8> {
    let mut sorted: Vec<(Vec<u8>, Vec<Token>)> =
        words.iter().map(|w| (w.0.as_bytes().to_vec(), w.1.clone())).collect();
    sorted.sort_by(|a, b| a.0.cmp(&b.0));
    let mut tokens: Vec<u8> = Vec::new();
    let mut features: Vec<u8> = Vec::new();
    for _ in 0..first_token {
        tokens.extend_from_slice(&[0u8; 16]);
    }
    if first_token > 0 {
        features.push(0);
    }
    let mut keys: Vec<(Vec<u8>, i32)> = Vec::new();
    let mut index = first_token;
    for (key, run) in sorted.iter() {
        keys.push((key.clone(), ((index as i32) << 8) | run.len() as i32));
        for t in run.iter() {
            push_u16(&mut tokens, t.0);
            push_u16(&mut tokens, t.1);
            push_u16(&mut tokens, t.2);
            tokens.extend_from_slice(&t.3.to_le_bytes());
            push_u32(&mut tokens, features.len() as u32);
            push_u32(&mut tokens, 0);
            features.extend_from_slice(t.4.as_bytes());
            features.push(0);
            index += 1;
        }
    }
    let mut trie = Trie::new();
    let root = trie.place(&keys, 0, keys.len(), 0);
    trie.base[0] = root;
    let cells = trie.base.len();
    let mut out: Vec<u8> = Vec::new();
    let size = 72 + cells * 8 + tokens.len() + features.len();
    push_u32(&mut out, size as u32 ^ 0xef71_8f77);
    push_u32(&mut out, 102);
    push_u32(&mut out, 0);
    push_u32(&mut out, index as u32);
    push_u32(&mut out, 1316);
    push_u32(&mut out, 1316);
    push_u32(&mut out, (cells * 8) as u32);
    push_u32(&mut out, tokens.len() as u32);
    push_u32(&mut out, features.len() as u32);
    push_u32(&mut out, 0);
    let mut charset = b"UTF-8".to_vec();
    charset.resize(32, 0);
    out.extend_from_slice(&charset);
    for i in 0..cells {
        out.extend_from_slice(&trie.base[i].to_le_bytes());
        push_u32(&mut out, trie.check[i]);
    }
    out.extend_from_slice(&tokens);
    out.extend_from_slice(&features);
    out
}

const NAMES: [&str; 11] = [
    "DEFAULT", "SPACE", "KANJI", "SYMBOL", "NUMERIC", "ALPHA", "HIRAGANA", "KATAKANA",
    "KANJINUMERIC", "GREEK", "CYRILLIC",
];

/// For each category: invoke, group, length.
const RULES: [(u32, u32, u32); 11] = [
    (0, 1, 0),
    (0, 1, 0),
    (0, 0, 2),
    (1, 1, 0),
    (1, 1, 0),
    (1, 1, 0),
    (0, 1, 2),
    (1, 1, 2),
    (1, 1, 0),
    (1, 1, 0),
    (1, 1, 0),
];

fn packed(default_type: u32, extra: &[u32]) -> u32 {
    let mut mask = 1u32 << default_type;
    for t in extra.iter() {
        mask |= 1u32 << t;
    }
    let (invoke, group, length) = RULES[default_type as usize];
    mask | (default_type << 18) | (length << 26) | (group << 30) | (invoke << 31)
}

/// The image of a character table with the eleven usual categories.
fn char_table() -> Vec<u8> {
    let mut table: Vec<u32> = vec![packed(0, &[]); 0x1_0000];
    let ranges: [(u32, u32, u32); 16] = [
        (0x20, 0x20, 1),
        (0x09, 0x0d, 1),
        (0x21, 0x2f, 3),
        (0x30, 0x39, 4),
        (0x41, 0x5a, 5),
        (0x61, 0x7a, 5),
        (0x3000, 0x303f, 3),
        (0x3041, 0x309f, 6),
        (0x30a1, 0x30ff, 7),
        (0x4e00, 0x9fa5, 2),
        (0xff10, 0xff19, 4),
        (0xff21, 0xff3a, 5),
        (0xff41, 0xff5a, 5),
        (0x0391, 0x03c9, 9),
        (0x0410, 0x044f, 10),
        (0x3005, 0x3005, 2),
    ];
    for (lo, hi, t) in ranges.iter() {
        for c in *lo..=*hi {
            table[c as usize] = packed(*t, &[]);
        }
    }
    table[0x3007] = packed(3, &[8]);
    for c in [0x4e00u32, 0x4e8c, 0x4e09, 0x56db, 0x4e94, 0x516d, 0x4e03, 0x516b, 0x4e5d, 0x5341] {
        table[c as usize] = packed(8, &[2]);
    }
    let mut out: Vec<u8> = Vec::new();
    push_u32(&mut out, NAMES.len() as u32);
    for name in NAMES.iter() {
        let mut record = name.as_bytes().to_vec();
        record.resize(32, 0);
        out.extend_from_slice(&record);
    }
    for v in table.iter() {
        push_u32(&mut out, *v);
    }
    out
}

/// The image of a matrix of `size` rows and columns, zero but for `costs`,
/// each given as right id of the first word, left id of the second, cost.
fn matrix(size: u16, costs: &[(u16, u16, i16)]) -> Vec<u8> {
    let mut out: Vec<u8> = vec![0; 4 + 2 * size as usize * size as usize];
    out[0..2].copy_from_slice(&size.to_le_bytes());
    out[2..4].copy_from_slice(&size.to_le_bytes());
    for (id1, id2, cost) in costs.iter() {
        let at = 4 + 2 * (*id2 as usize * size as usize + *id1 as usize);
        out[at..at + 2].copy_from_slice(&cost.to_le_bytes());
    }
    out
}

const GENERAL: u16 = 1285;
const TOPIC: u16 = 261;
const LINK: u16 = 368;
const NUMBER: u16 = 1295;
const SUFFIX: u16 = 1300;
const ADVERBIAL: u16 = 1314;
const COPULA: u16 = 460;
const PERIOD: u16 = 8;
const OTHER: u16 = 560;
const UNKNOWN: u16 = 5;

fn word(id: u16, cost: i16, feature: &'static str) -> Vec<Token> {
    vec![(id, id, 0, cost, feature)]
}

fn system_dictionary() -> Vec<u8> {
    let mut su: Vec<Token> = Vec::new();
    for _ in 0..7 {
        su.push((OTHER, OTHER, 30, 20000, "名詞,一般,*,*,*,*,す,ス,ス"));
    }
    dictionary(
        &[
            ("す", su),
            ("すも", word(OTHER, 20000, "名詞,一般,*,*,*,*,すも,スモ,スモ")),
            ("すもも", word(GENERAL, 1000, "名詞,一般,*,*,*,*,すもも,スモモ,スモモ")),
            ("も", word(TOPIC, 1000, "助詞,係助詞,*,*,*,*,も,モ,モ")),
            ("もも", word(GENERAL, 1000, "名詞,一般,*,*,*,*,もも,モモ,モモ")),
            ("の", word(LINK, 1000, "助詞,連体化,*,*,*,*,の,ノ,ノ")),
            ("うち", word(ADVERBIAL, 1000, "名詞,非自立,副詞可能,*,*,*,うち,ウチ,ウチ")),
            ("祖父", word(GENERAL, 1000, "名詞,一般,*,*,*,*,祖父,ソフ,ソフ")),
            ("は", word(TOPIC, 1000, "助詞,係助詞,*,*,*,*,は,ハ,ワ")),
            ("１", word(NUMBER, 1000, "名詞,数,*,*,*,*,１,イチ,イチ")),
            ("９", word(NUMBER, 1000, "名詞,数,*,*,*,*,９,キュウ,キュー")),
            ("０", word(NUMBER, 1000, "名詞,数,*,*,*,*,０,ゼロ,ゼロ")),
            ("２", word(NUMBER, 1000, "名詞,数,*,*,*,*,２,ニ,ニ")),
            ("年", word(SUFFIX, 1000, "名詞,接尾,助数詞,*,*,*,年,ネン,ネン")),
            ("１０月", word(ADVERBIAL, 1000, "名詞,副詞可能,*,*,*,*,１０月,ジュウガツ,ジューガツ")),
            ("日", word(SUFFIX, 1000, "名詞,接尾,助数詞,*,*,*,日,ニチ,ニチ")),
            ("生まれ", word(GENERAL, 1000, "名詞,一般,*,*,*,*,生まれ,ウマレ,ウマレ")),
            ("です", word(COPULA, 1000, "助動詞,*,*,*,特殊・デス,基本形,です,デス,デス")),
            ("。", word(PERIOD, 1000, "記号,句点,*,*,*,*,。,。,。")),
        ],
        0,
    )
}

fn unknown_dictionary() -> Vec<u8> {
    let run = |n: usize, feature: &'static str| -> Vec<Token> {
        (0..n).map(|_| (UNKNOWN, UNKNOWN, 0, 30000, feature)).collect()
    };
    dictionary(
        &[
            ("ALPHA", run(7, "名詞,一般,*,*,*,*,*")),
            ("CYRILLIC", run(5, "名詞,一般,*,*,*,*,*")),
            ("DEFAULT", run(1, "記号,一般,*,*,*,*,*")),
            ("GREEK", run(5, "名詞,一般,*,*,*,*,*")),
            ("HIRAGANA", run(6, "名詞,一般,*,*,*,*,*")),
            ("KANJI", run(6, "名詞,一般,*,*,*,*,*")),
            ("KANJINUMERIC", run(1, "名詞,数,*,*,*,*,*")),
            ("KATAKANA", run(6, "名詞,一般,*,*,*,*,*")),
            ("NUMERIC", run(1, "名詞,数,*,*,*,*,*")),
            ("SPACE", run(1, "記号,空白,*,*,*,*,*")),
            ("SYMBOL", run(1, "記号,一般,*,*,*,*,*")),
        ],
        0,
    )
}

fn connection_matrix() -> Vec<u8> {
    matrix(
        1316,
        &[
            (GENERAL, GENERAL, 5000),
            (TOPIC, TOPIC, 5000),
            (TOPIC, LINK, 5000),
            (LINK, TOPIC, 5000),
            (555, 1283, 340),
            (10, 1293, -1376),
        ],
    )
}

fn pair(surface: &str, feature: &str) -> (String, String) {
    (surface.to_string(), feature.to_string())
}

// ---------------------------------------------------------------------------

#[test]
fn test_tokenizer() {
    let sys = system_dictionary();
    let unk = unknown_dictionary();
    let chars = char_table();
    let costs = connection_matrix();
    let tokenizer = Tokenizer::new(&sys, None, &chars, &unk, &costs).unwrap();

    assert_eq!(
        tokenizer.tokenize("すもももももももものうち"),
        Ok(vec![
            (
                "すもも".to_string(),
                "名詞,一般,*,*,*,*,すもも,スモモ,スモモ".to_string()
            ),
            ("も".to_string(), "助詞,係助詞,*,*,*,*,も,モ,モ".to_string()),
            (
                "もも".to_string(),
                "名詞,一般,*,*,*,*,もも,モモ,モモ".to_string()
            ),
            ("も".to_string(), "助詞,係助詞,*,*,*,*,も,モ,モ".to_string()),
            (
                "もも".to_string(),
                "名詞,一般,*,*,*,*,もも,モモ,モモ".to_string()
            ),
            ("の".to_string(), "助詞,連体化,*,*,*,*,の,ノ,ノ".to_string()),
            (
                "うち".to_string(),
                "名詞,非自立,副詞可能,*,*,*,うち,ウチ,ウチ".to_string()
            ),
        ])
    );

    assert_eq!(
        tokenizer.tokenize("祖父は１９０１年１０月２０日生まれです。"),
        Ok(vec![
            (
                "祖父".to_string(),
                "名詞,一般,*,*,*,*,祖父,ソフ,ソフ".to_string()
            ),
            ("は".to_string(), "助詞,係助詞,*,*,*,*,は,ハ,ワ".to_string()),
            ("１".to_string(), "名詞,数,*,*,*,*,１,イチ,イチ".to_string()),
            (
                "９".to_string(),
                "名詞,数,*,*,*,*,９,キュウ,キュー".to_string()
            ),
            ("０".to_string(), "名詞,数,*,*,*,*,０,ゼロ,ゼロ".to_string()),
            ("１".to_string(), "名詞,数,*,*,*,*,１,イチ,イチ".to_string()),
            (
                "年".to_string(),
                "名詞,接尾,助数詞,*,*,*,年,ネン,ネン".to_string()
            ),
            (
                "１０月".to_string(),
                "名詞,副詞可能,*,*,*,*,１０月,ジュウガツ,ジューガツ".to_string()
            ),
            ("２".to_string(), "名詞,数,*,*,*,*,２,ニ,ニ".to_string()),
            ("０".to_string(), "名詞,数,*,*,*,*,０,ゼロ,ゼロ".to_string()),
            (
                "日".to_string(),
                "名詞,接尾,助数詞,*,*,*,日,ニチ,ニチ".to_string()
            ),
            (
                "生まれ".to_string(),
                "名詞,一般,*,*,*,*,生まれ,ウマレ,ウマレ".to_string()
            ),
            (
                "です".to_string(),
                "助動詞,*,*,*,特殊・デス,基本形,です,デス,デス".to_string()
            ),
            ("。".to_string(), "記号,句点,*,*,*,*,。,。,。".to_string()),
        ])
    );
}

#[test]
fn test_dic_open() {
    assert!(MeCabDic::open(&[0u8; 10]).is_err(), "Error not occured.");
    assert_eq!(MeCabDic::open(&[0u8; 71]).err(), Some(DicError::Truncated));

    let sys = system_dictionary();
    let result = MeCabDic::open(&sys);
    assert!(!result.is_err(), "Can't open dict file.");
    let _sys_dic = result.unwrap();

    assert_eq!(MeCabDic::open(&sys[..sys.len() - 1]).err(), Some(DicError::Truncated));
}

#[test]
fn test_char_property() {
    let chars = char_table();
    let cp = CharProperty::open(&chars).unwrap();

    assert_eq!(
        cp.category_names,
        vec![
            "DEFAULT",
            "SPACE",
            "KANJI",
            "SYMBOL",
            "NUMERIC",
            "ALPHA",
            "HIRAGANA",
            "KATAKANA",
            "KANJINUMERIC",
            "GREEK",
            "CYRILLIC"
        ]
    );

    // (default_type, type, length, group, invoke)
    assert_eq!(cp.get_char_info(0), (0, 1, 0, 1, 0)); // DEFAULT
    assert_eq!(cp.get_char_info(0x20), (1, 2, 0, 1, 0)); // SPACE
    assert_eq!(cp.get_char_info(0x09), (1, 2, 0, 1, 0)); // SPACE
    assert_eq!(cp.get_char_info(0x6f22), (2, 4, 2, 0, 0)); // KANJI 漢
    assert_eq!(cp.get_char_info(0x3007), (3, 264, 0, 1, 1)); // SYMBOL
    assert_eq!(cp.get_char_info(0x31), (4, 16, 0, 1, 1)); // NUMERIC 1
    assert_eq!(cp.get_char_info(0x3042), (6, 64, 2, 1, 0)); // HIRAGANA あ
    assert_eq!(cp.get_char_info(0x4e00), (8, 260, 0, 1, 1)); // KANJINUMERIC 一
}

#[test]
fn test_get_trans_cost() {
    let costs = connection_matrix();
    let matrix = Matrix::open(&costs).unwrap();
    assert_eq!(matrix.get_trans_cost(555, 1283), 340);
    assert_eq!(matrix.get_trans_cost(10, 1293), -1376);
}

#[test]
fn test_lookup() {
    let sys = system_dictionary();
    let sys_dic = MeCabDic::open(&sys).unwrap();
    let sb = "すもももももももものうち".as_bytes();

    let r = sys_dic.common_prefix_search(&sb[0..]).unwrap();
    assert_eq!(r.len(), 3);
    assert_eq!(r[0].1, 3);
    assert_eq!(r[1].1, 6);
    assert_eq!(r[2].1, 9);

    let entries = sys_dic.lookup(sb).unwrap();
    assert_eq!(entries.len(), 9);
}

#[test]
fn test_lookup_unknowns() {
    let unk = unknown_dictionary();
    let chars = char_table();
    let unk_dic = MeCabDic::open(&unk).unwrap();
    let cp = CharProperty::open(&chars).unwrap();

    assert_eq!(unk_dic.exact_match_search(b"SPACE"), Ok(9729));

    let (entries, invoke) = unk_dic.lookup_unknowns("１９６７年".as_bytes(), &cp).unwrap();
    assert_eq!(entries.len(), 1);
    assert_eq!(invoke, true);
    assert_eq!(entries[0].original, "１９６７".as_bytes());
}

#[test]
fn exact_match_finds_every_category() {
    let unk = unknown_dictionary();
    let unk_dic = MeCabDic::open(&unk).unwrap();
    for name in NAMES.iter() {
        let found = unk_dic.exact_match_search(name.as_bytes()).unwrap();
        assert!(found >= 0, "{}", name);
        assert!(found & 0xff >= 1);
    }
    assert_eq!(unk_dic.exact_match_search(b"SPAC"), Ok(-1));
    assert_eq!(unk_dic.exact_match_search(b"SPACES"), Ok(-1));
    assert_eq!(unk_dic.exact_match_search(b""), Ok(-1));
}

#[test]
fn prefix_search_grows_with_the_key() {
    let sys = system_dictionary();
    let sys_dic = MeCabDic::open(&sys).unwrap();
    let long = "すもももももももものうち".as_bytes();
    let all = sys_dic.common_prefix_search(long).unwrap();
    for cut in 0..=long.len() {
        let some = sys_dic.common_prefix_search(&long[..cut]).unwrap();
        for hit in some.iter() {
            assert!(all.contains(hit));
            assert!(hit.1 <= cut);
        }
        assert_eq!(some.len(), [3, 6, 9].iter().filter(|n| **n <= cut).count());
    }
}

#[test]
fn tokens_spell_the_input() {
    let sys = system_dictionary();
    let unk = unknown_dictionary();
    let chars = char_table();
    let costs = connection_matrix();
    let tokenizer = Tokenizer::new(&sys, None, &chars, &unk, &costs).unwrap();
    for text in ["すもももももももものうち", "祖父は１９０１年１０月２０日生まれです。", "もも", "Ｘ線", ""] {
        let tokens = tokenizer.tokenize(text).unwrap();
        let joined: String = tokens.iter().map(|t| t.0.as_str()).collect();
        assert_eq!(joined, text);
    }
}

#[test]
fn space_is_bridged_over() {
    let sys = system_dictionary();
    let unk = unknown_dictionary();
    let chars = char_table();
    let costs = connection_matrix();
    let tokenizer = Tokenizer::new(&sys, None, &chars, &unk, &costs).unwrap();
    assert_eq!(
        tokenizer.tokenize("もも の"),
        Ok(vec![
            pair("もも", "名詞,一般,*,*,*,*,もも,モモ,モモ"),
            pair("の", "助詞,連体化,*,*,*,*,の,ノ,ノ"),
        ])
    );
}

#[test]
fn unknown_words_fill_the_gaps() {
    let sys = system_dictionary();
    let unk = unknown_dictionary();
    let chars = char_table();
    let costs = connection_matrix();
    let tokenizer = Tokenizer::new(&sys, None, &chars, &unk, &costs).unwrap();
    assert_eq!(
        tokenizer.tokenize("ABCの"),
        Ok(vec![
            pair("ABC", "名詞,一般,*,*,*,*,*"),
            pair("の", "助詞,連体化,*,*,*,*,の,ノ,ノ"),
        ])
    );
    // One unknown word costs less than two digits and an unknown word.
    assert_eq!(tokenizer.tokenize("１９６７"), Ok(vec![pair("１９６７", "名詞,数,*,*,*,*,*")]));
    // Three digits cost less than one unknown word.
    assert_eq!(tokenizer.tokenize("１９０").unwrap().len(), 3);
}

#[test]
fn user_dictionary_adds_candidates() {
    let sys = system_dictionary();
    let unk = unknown_dictionary();
    let chars = char_table();
    let costs = connection_matrix();
    let user = dictionary(
        &[("もものうち", word(GENERAL, 500, "名詞,固有名詞,*,*,*,*,もものうち,モモノウチ,モモノウチ"))],
        0,
    );
    let tokenizer = Tokenizer::new(&sys, Some(&user), &chars, &unk, &costs).unwrap();
    assert_eq!(
        tokenizer.tokenize("もものうち"),
        Ok(vec![pair("もものうち", "名詞,固有名詞,*,*,*,*,もものうち,モモノウチ,モモノウチ")])
    );
    let plain = Tokenizer::new(&sys, None, &chars, &unk, &costs).unwrap();
    assert_eq!(plain.tokenize("もものうち").unwrap().len(), 3);
}

#[test]
fn n_best_paths_come_in_order_of_cost() {
    let sys = system_dictionary();
    let unk = unknown_dictionary();
    let chars = char_table();
    let costs = connection_matrix();
    let tokenizer = Tokenizer::new(&sys, None, &chars, &unk, &costs).unwrap();
    let best = tokenizer.tokenize("すもももももももものうち").unwrap();
    let ranked = tokenizer.tokenize_n_best("すもももももももものうち", 5).unwrap();
    assert_eq!(ranked.len(), 5);
    assert_eq!(ranked[0], best);
    for i in 0..ranked.len() {
        let joined: String = ranked[i].iter().map(|t| t.0.as_str()).collect();
        assert_eq!(joined, "すもももももももものうち");
        for j in 0..i {
            assert_ne!(ranked[i], ranked[j]);
        }
    }
    assert_eq!(tokenizer.tokenize_n_best("もも", 0), Ok(vec![]));
    assert_eq!(tokenizer.tokenize_n_best("", 3), Ok(vec![vec![]]));
}

#[test]
fn open_reports_what_is_wrong() {
    let sys = system_dictionary();
    let unk = unknown_dictionary();
    let chars = char_table();
    let costs = connection_matrix();
    assert_eq!(
        Tokenizer::new(&sys[..40], None, &chars, &unk, &costs).err(),
        Some(DicError::Truncated)
    );
    assert_eq!(
        Tokenizer::new(&sys, Some(&unk[..100]), &chars, &unk, &costs).err(),
        Some(DicError::Truncated)
    );
    assert_eq!(
        Tokenizer::new(&sys, None, &chars[..chars.len() - 1], &unk, &costs).err(),
        Some(DicError::Truncated)
    );
    assert_eq!(Tokenizer::new(&sys, None, &chars, &unk, &costs[..3]).err(), Some(DicError::Truncated));
    assert_eq!(
        Tokenizer::new(&sys, None, &chars, &unk, &matrix(0, &[])).err(),
        Some(DicError::ContextId)
    );
    let mut many = chars.clone();
    many[0] = 19;
    many.resize(4 + 19 * 32 + 4 * 0x1_0000, 0);
    assert_eq!(CharProperty::open(&many).err(), Some(DicError::Category));
    let mut stray = chars.clone();
    let at = 4 + 11 * 32 + 4 * 0x41;
    stray[at..at + 4].copy_from_slice(&(200u32 << 18).to_le_bytes());
    assert_eq!(CharProperty::open(&stray).err(), Some(DicError::Category));
    let mut garbled = chars.clone();
    garbled[4] = 0xff;
    assert_eq!(CharProperty::open(&garbled).err(), Some(DicError::NotUtf8));
}

#[test]
fn malformed_dictionaries_give_errors() {
    let unk = unknown_dictionary();
    let chars = char_table();
    let costs = connection_matrix();
    // A word whose context id has no row in the matrix.
    let wide = dictionary(&[("の", word(2000, 0, "助詞"))], 0);
    let tokenizer = Tokenizer::new(&wide, None, &chars, &unk, &costs).unwrap();
    assert_eq!(tokenizer.tokenize("の"), Err(DicError::ContextId));
    // A category without unknown words in the unknown-word dictionary.
    let sys = system_dictionary();
    let poor = dictionary(&[("DEFAULT", word(UNKNOWN, 0, "記号"))], 0);
    let tokenizer = Tokenizer::new(&sys, None, &chars, &poor, &costs).unwrap();
    assert_eq!(tokenizer.tokenize("A"), Err(DicError::MissingCategory));
    let cp = CharProperty::open(&chars).unwrap();
    let poor_dic = MeCabDic::open(&poor).unwrap();
    assert_eq!(poor_dic.exact_match_search(b"ALPHA"), Ok(-1));
    assert_eq!(poor_dic.lookup_unknowns(b"A", &cp).err(), Some(DicError::MissingCategory));
    assert!(poor_dic.lookup_unknowns(b"\x01", &cp).is_ok());
    // A token section that is cut short.
    let mut cut = system_dictionary();
    let tsize = u32::from_le_bytes([cut[28], cut[29], cut[30], cut[31]]);
    let fsize = u32::from_le_bytes([cut[32], cut[33], cut[34], cut[35]]);
    cut[28..32].copy_from_slice(&16u32.to_le_bytes());
    cut[32..36].copy_from_slice(&(fsize + tsize - 16).to_le_bytes());
    let dic = MeCabDic::open(&cut).unwrap();
    assert_eq!(dic.lookup("もも".as_bytes()).err(), Some(DicError::OutOfRange));
    // Features that are not text.
    let odd = dictionary(&[("の", vec![(LINK, LINK, 0, 0, "助詞")])], 0);
    let mut odd = odd;
    let n = odd.len();
    odd[n - 2] = 0xff;
    let tokenizer = Tokenizer::new(&odd, None, &chars, &unk, &costs).unwrap();
    assert_eq!(tokenizer.tokenize("の"), Err(DicError::NotUtf8));
}

#[test]
fn the_matrix_gives_the_cost_of_a_pair() {
    let costs = matrix(3, &[(0, 0, 1), (1, 0, 2), (2, 0, 3), (0, 1, -4), (2, 2, i16::MIN), (1, 2, i16::MAX)]);
    let m = Matrix::open(&costs).unwrap();
    assert_eq!((m.lsize, m.rsize), (3, 3));
    assert_eq!(m.get_trans_cost(0, 0), 1);
    assert_eq!(m.get_trans_cost(1, 0), 2);
    assert_eq!(m.get_trans_cost(2, 0), 3);
    assert_eq!(m.get_trans_cost(0, 1), -4);
    assert_eq!(m.get_trans_cost(1, 1), 0);
    assert_eq!(m.get_trans_cost(2, 2), -32768);
    assert_eq!(m.get_trans_cost(1, 2), 32767);
    assert_eq!(Matrix::open(&[]).err(), Some(DicError::Truncated));
    assert_eq!(Matrix::open(&costs[..costs.len() - 1]).err(), Some(DicError::Truncated));
    assert!(Matrix::open(&[0, 0, 0, 0]).is_ok());
}

#[test]
fn unknown_words_are_measured_by_category() {
    let chars = char_table();
    let cp = CharProperty::open(&chars).unwrap();
    // HIRAGANA groups, and offers the first one and two characters.
    let text = "すもものうち".as_bytes();
    assert_eq!(cp.get_group_length(text, 6), 18);
    assert_eq!(cp.get_count_length(text, 6, 1), 3);
    assert_eq!(cp.get_count_length(text, 6, 2), 6);
    assert_eq!(cp.get_count_length(text, 6, 7), -1);
    assert_eq!(cp.get_count_length(text, 2, 1), -1);
    assert_eq!(cp.get_group_length(text, 2), 0);
    assert_eq!(cp.get_unknown_lengths(text), (6, vec![18, 3, 6], false));
    // KANJI does not group.
    assert_eq!(cp.get_unknown_lengths("漢字です".as_bytes()), (2, vec![3, 6], false));
    assert_eq!(cp.get_unknown_lengths("漢です".as_bytes()), (2, vec![3], false));
    // NUMERIC groups only, and always offers unknown words.
    assert_eq!(cp.get_unknown_lengths("１９６７年".as_bytes()), (4, vec![12], true));
    assert_eq!(cp.get_unknown_lengths(b"1967 ".as_ref()), (4, vec![4], true));
    // KANJINUMERIC characters are KANJI as well.
    assert_eq!(cp.get_group_length("一二漢".as_bytes(), 2), 9);
    assert_eq!(cp.get_group_length("一二漢".as_bytes(), 8), 6);
    // A run of more than 25 characters is not grouped.
    let long = "あ".repeat(25);
    assert_eq!(cp.get_group_length(long.as_bytes(), 6), 75);
    let longer = "あ".repeat(26);
    assert_eq!(cp.get_group_length(longer.as_bytes(), 6), -1);
    assert_eq!(cp.get_unknown_lengths(longer.as_bytes()), (6, vec![3, 6], false));
    let spaces = " ".repeat(26);
    assert_eq!(cp.get_unknown_lengths(spaces.as_bytes()), (1, vec![1], false));
    assert_eq!(cp.get_group_length(b"", 0), 0);
    assert_eq!(cp.get_count_length(b"", 0, 0), 0);
    assert_eq!(cp.get_count_length(b"", 0, 1), -1);
}

#[test]
fn entries_carry_what_the_records_hold() {
    let sys = dictionary(
        &[
            ("も", vec![(262, 263, 16, 4669, "助詞,係助詞,*,*,*,*,も,モ,モ"), (1, 2, 3, -4, "x")]),
            ("もも", vec![(1285, 1285, 38, 7219, "名詞,一般,*,*,*,*,もも,モモ,モモ")]),
        ],
        3,
    );
    let dic = MeCabDic::open(&sys).unwrap();
    let text = "ももも".as_bytes();
    assert_eq!(dic.exact_match_search("も".as_bytes()), Ok((3 << 8) | 2));
    assert_eq!(dic.exact_match_search("もも".as_bytes()), Ok((5 << 8) | 1));
    assert_eq!(dic.exact_match_search(text), Ok(-1));
    assert_eq!(dic.common_prefix_search(text), Ok(vec![((3 << 8) | 2, 3), ((5 << 8) | 1, 6)]));
    assert_eq!(dic.common_prefix_search(b"x"), Ok(vec![]));
    assert_eq!(dic.common_prefix_search(b""), Ok(vec![]));

    let entries = dic.lookup(text).unwrap();
    assert_eq!(entries.len(), 3);
    let e = entries[0];
    assert_eq!((e.lc_attr, e.rc_attr, e.posid, e.wcost, e.skip), (262, 263, 16, 4669, false));
    assert_eq!(e.original, "も".as_bytes());
    assert_eq!(e.feature, "助詞,係助詞,*,*,*,*,も,モ,モ".as_bytes());
    let e = entries[1];
    assert_eq!((e.lc_attr, e.rc_attr, e.posid, e.wcost), (1, 2, 3, -4));
    assert_eq!(e.feature, b"x");
    let e = entries[2];
    assert_eq!((e.lc_attr, e.rc_attr, e.posid, e.wcost), (1285, 1285, 38, 7219));
    assert_eq!(e.original, "もも".as_bytes());

    let run = dic.get_entries((5 << 8) | 1, text, 9, true).unwrap();
    assert_eq!(run.len(), 1);
    assert_eq!(run[0].original, text);
    assert!(run[0].skip);
    assert_eq!(dic.get_entries_by_index(3, 3, text, 3, false).unwrap().len(), 3);
    assert_eq!(dic.get_entries_by_index(3, 0, text, 3, false).unwrap().len(), 0);
    assert_eq!(dic.get_entries_by_index(6, 1, text, 3, false).err(), Some(DicError::OutOfRange));
    assert_eq!(dic.get_entries_by_index(5, 2, text, 3, false).err(), Some(DicError::OutOfRange));
    assert_eq!(dic.base_check(-1), None);
    assert!(dic.base_check(0).is_some());
    assert_eq!(dic.base_check(1 << 40), None);
}

#[test]
fn unknown_entries_of_white_space_are_marked() {
    let unk = unknown_dictionary();
    let chars = char_table();
    let unk_dic = MeCabDic::open(&unk).unwrap();
    let cp = CharProperty::open(&chars).unwrap();
    let (entries, invoke) = unk_dic.lookup_unknowns(b"  a", &cp).unwrap();
    assert_eq!(entries.len(), 1);
    assert_eq!(entries[0].original, b"  ");
    assert!(entries[0].skip);
    assert!(!invoke);
    let (entries, invoke) = unk_dic.lookup_unknowns("もも".as_bytes(), &cp).unwrap();
    // Six unknown HIRAGANA words for each of the three lengths.
    assert_eq!(entries.len(), 18);
    assert_eq!(entries[0].original, "もも".as_bytes());
    assert_eq!(entries[6].original, "も".as_bytes());
    assert_eq!(entries[12].original, "もも".as_bytes());
    assert!(entries.iter().all(|e| !e.skip));
    assert!(!invoke);
    assert!(awabi::dic::is_space(b"SPACE"));
    assert!(!awabi::dic::is_space(b"SPACES"));
    assert!(!awabi::dic::is_space(b"space"));
}

#[test]
fn the_lattice_holds_the_offers_at_every_position() {
    let sys = system_dictionary();
    let unk = unknown_dictionary();
    let chars = char_table();
    let costs = connection_matrix();
    let tokenizer = Tokenizer::new(&sys, None, &chars, &unk, &costs).unwrap();
    let lattice = tokenizer.build_lattice("ももの").unwrap();
    assert_eq!(lattice.positions(), 11);
    assert_eq!(lattice.position(), 10);
    // も and もも start at the first byte, も at the fourth, の at the seventh.
    assert_eq!(lattice.starting_at(1).len(), 2);
    assert_eq!(lattice.starting_at(4).len(), 1);
    assert_eq!(lattice.starting_at(7).len(), 1);
    for pos in [2usize, 3, 5, 6, 8, 9] {
        assert_eq!(lattice.starting_at(pos).len(), 0);
        assert_eq!(lattice.ending_at(pos).len(), 0);
    }
    assert_eq!(lattice.ending_at(7).len(), 2);
    assert!(lattice.starting_at(10)[0].is_eos());
    // もも, の: 1000 + 1000.
    assert_eq!(lattice.starting_at(10)[0].min_cost, 2000);
    let too_long = tokenizer.build_lattice("１９６７");
    assert!(too_long.is_ok());
}

#[test]
fn entries_without_surface_and_dead_ends_are_reported() {
    let unk = unknown_dictionary();
    let chars = char_table();
    let costs = connection_matrix();
    // A dictionary that stores an entry under the empty key.
    let hollow = dictionary(&[("", word(GENERAL, 0, "名詞")), ("の", word(LINK, 0, "助詞"))], 0);
    let dic = MeCabDic::open(&hollow).unwrap();
    let hits = dic.common_prefix_search("の".as_bytes()).unwrap();
    assert_eq!(hits.len(), 2);
    assert_eq!(hits[0].1, 0);
    assert_eq!(hits[1].1, 3);
    let tokenizer = Tokenizer::new(&hollow, None, &chars, &unk, &costs).unwrap();
    assert_eq!(tokenizer.tokenize("の"), Err(DicError::EmptySurface));
    assert_eq!(tokenizer.tokenize(""), Ok(vec![]));
    // An unknown-word dictionary that stores no entry for a category.
    let sys = system_dictionary();
    let bare = dictionary(&[("DEFAULT", vec![]), ("HIRAGANA", word(UNKNOWN, 0, "名詞"))], 0);
    let tokenizer = Tokenizer::new(&sys, None, &chars, &bare, &costs).unwrap();
    assert_eq!(tokenizer.tokenize("\u{1}"), Err(DicError::NoCandidate));
    assert_eq!(tokenizer.tokenize("の\u{1}"), Err(DicError::NoCandidate));
    assert_eq!(tokenizer.tokenize_n_best("の\u{1}", 2), Err(DicError::NoCandidate));
    assert_eq!(tokenizer.tokenize("の").unwrap().len(), 1);
}

#[test]
fn ranked_paths_pass_through_white_space() {
    let sys = system_dictionary();
    let unk = unknown_dictionary();
    let chars = char_table();
    let costs = connection_matrix();
    let tokenizer = Tokenizer::new(&sys, None, &chars, &unk, &costs).unwrap();
    let ranked = tokenizer.tokenize_n_best("もも の", 4).unwrap();
    // もも or も も, then the space, then の.
    assert_eq!(ranked.len(), 2);
    assert_eq!(
        ranked[0],
        vec![
            pair("もも", "名詞,一般,*,*,*,*,もも,モモ,モモ"),
            pair(" ", "記号,空白,*,*,*,*,*"),
            pair("の", "助詞,連体化,*,*,*,*,の,ノ,ノ"),
        ]
    );
    assert_eq!(ranked[1].len(), 4);
    for tokens in ranked.iter() {
        let joined: String = tokens.iter().map(|t| t.0.as_str()).collect();
        assert_eq!(joined, "もも の");
    }
}

#[test]
fn fewer_ways_are_the_first_of_more_ways() {
    let sys = system_dictionary();
    let unk = unknown_dictionary();
    let chars = char_table();
    let costs = connection_matrix();
    let tokenizer = Tokenizer::new(&sys, None, &chars, &unk, &costs).unwrap();
    for text in ["すもももももももものうち", "もも の", "祖父は１９０１年", ""] {
        let all = tokenizer.tokenize_n_best(text, 12).unwrap();
        for n in 0..=12u32 {
            let some = tokenizer.tokenize_n_best(text, n).unwrap();
            assert!(some.len() <= n as usize);
            assert_eq!(some.len(), all.len().min(n as usize));
            assert_eq!(some[..], all[..some.len()]);
        }
        assert_eq!(tokenizer.tokenize_n_best(text, 12).unwrap(), all);
    }
}
