use kokoa::chunk::{chars_of, classify, copy_text, is_hangul_chunk, same_text, split, split_chars, CharClass};
use kokoa::expand::candidates;

fn chars(s: &str) -> Vec<char> {
    s.chars().collect()
}

fn strings(chunks: &Vec<Vec<char>>) -> Vec<String> {
    chunks.iter().map(|c| c.iter().collect()).collect()
}

#[test]
fn classify_by_code_point_range() {
    assert_eq!(classify('A'), CharClass::Latin);
    assert_eq!(classify('z'), CharClass::Latin);
    assert_eq!(classify('['), CharClass::Latin);
    assert_eq!(classify('_'), CharClass::Latin);
    assert_eq!(classify('`'), CharClass::Latin);
    assert_eq!(classify('@'), CharClass::Other);
    assert_eq!(classify('{'), CharClass::Other);
    assert_eq!(classify('0'), CharClass::Digit);
    assert_eq!(classify('9'), CharClass::Digit);
    assert_eq!(classify('/'), CharClass::Other);
    assert_eq!(classify(':'), CharClass::Other);
    assert_eq!(classify('가'), CharClass::Hangul);
    assert_eq!(classify('힣'), CharClass::Hangul);
    assert_eq!(classify('ㄱ'), CharClass::Other);
    assert_eq!(classify('ㅏ'), CharClass::Other);
    assert_eq!(classify(' '), CharClass::Other);
    assert_eq!(classify('é'), CharClass::Other);
}

#[test]
fn chars_of_keeps_every_character() {
    assert_eq!(chars_of("안녕 a1!"), chars("안녕 a1!"));
    assert_eq!(chars_of(""), Vec::<char>::new());
}

#[test]
fn copy_and_compare_texts() {
    let a = chars("안녕");
    let b = copy_text(&a);
    assert_eq!(a, b);
    assert!(same_text(&a, &b));
    assert!(!same_text(&a, &chars("안")));
    assert!(!same_text(&a, &chars("안냥")));
    assert!(same_text(&Vec::new(), &Vec::new()));
}

#[test]
fn split_greeting_with_punctuation() {
    assert_eq!(strings(&split("안녕하세요!")), vec!["안녕하세요", "!"]);
}

#[test]
fn split_mixed_text() {
    assert_eq!(
        strings(&split("안녕ㅎㅎㅎㅎ12 4rr ?")),
        vec!["안녕", "ㅎㅎㅎㅎ", "12", " ", "4", "rr", " ?"]
    );
    assert_eq!(
        strings(&split("안녕하세요ㄱㄱaa! 돼지")),
        vec!["안녕하세요", "ㄱㄱ", "aa", "! ", "돼지"]
    );
}

#[test]
fn split_empty_text_has_no_chunk() {
    assert_eq!(split("").len(), 0);
    assert_eq!(split_chars(&Vec::new()).len(), 0);
}

#[test]
fn split_single_character() {
    assert_eq!(strings(&split("가")), vec!["가"]);
    assert_eq!(strings(&split("?")), vec!["?"]);
}

#[test]
fn split_keeps_the_wide_latin_range() {
    assert_eq!(strings(&split("Z[a")), vec!["Z[a"]);
    assert_eq!(strings(&split("a_b`c^d")), vec!["a_b`c^d"]);
    assert_eq!(strings(&split("a@b")), vec!["a", "@", "b"]);
}

#[test]
fn split_loses_nothing_and_mixes_nothing() {
    let samples = [
        "",
        "a",
        "안녕하세요! Hello 123 ㅋㅋㅋ 세계",
        "12ab가나!!34  cd",
        "가a1!가a1!",
        "   ",
        "한글과English와123을 섞은 문장입니다.",
    ];
    for sample in samples.iter() {
        let chunks = split(sample);
        let joined: String = chunks.iter().flat_map(|c| c.iter()).collect();
        assert_eq!(&joined, sample);
        for chunk in chunks.iter() {
            assert!(!chunk.is_empty());
            for c in chunk.iter() {
                assert_eq!(classify(*c), classify(chunk[0]));
            }
        }
        for pair in chunks.windows(2) {
            assert_ne!(classify(*pair[0].last().unwrap()), classify(pair[1][0]));
        }
        assert_eq!(split_chars(&chars(sample)), chunks);
    }
}

#[test]
fn hangul_chunk_is_a_non_empty_run_of_syllables() {
    assert!(is_hangul_chunk(&chars("안녕")));
    assert!(!is_hangul_chunk(&chars("")));
    assert!(!is_hangul_chunk(&chars("안a")));
    assert!(!is_hangul_chunk(&chars("ㄱㄱ")));
    assert!(!is_hangul_chunk(&chars("!")));
}

#[test]
fn candidates_are_the_syllable_prefixes() {
    assert_eq!(strings(&candidates(&chars("안녕하"))), vec!["안", "안녕", "안녕하"]);
    assert_eq!(strings(&candidates(&chars("가"))), vec!["가"]);
    assert_eq!(candidates(&chars("")).len(), 0);
}

#[test]
fn candidates_never_end_on_a_bare_consonant() {
    assert_eq!(candidates(&chars("ㄱ")).len(), 0);
    assert_eq!(strings(&candidates(&chars("ㄱ가"))), vec!["ㄱ가"]);
    assert_eq!(strings(&candidates(&chars("가ㄱ나"))), vec!["가", "가ㄱ나"]);
}

#[test]
fn candidates_grow_strictly() {
    let chunk = chars("동해물과백두산이마르고닳도록");
    let found = candidates(&chunk);
    assert_eq!(found.len(), chunk.len());
    for (i, c) in found.iter().enumerate() {
        assert_eq!(c.len(), i + 1);
        assert_eq!(c[..], chunk[..i + 1]);
    }
}
