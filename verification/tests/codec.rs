use kokoa::jamo::{compose, decompose, is_syllable};
use kokoa::stream::{assemble, assemble_char, disassemble, disassemble_char, jamo_len, Jamo};

const ONSETS: &str = "ㄱㄲㄴㄷㄸㄹㅁㅂㅃㅅㅆㅇㅈㅉㅊㅋㅌㅍㅎ";
const NUCLEI: &str = "ㅏㅐㅑㅒㅓㅔㅕㅖㅗㅘㅙㅚㅛㅜㅝㅞㅟㅠㅡㅢㅣ";
const CODAS: &str = "ㄱㄲㄳㄴㄵㄶㄷㄹㄺㄻㄼㄽㄾㄿㅀㅁㅂㅄㅅㅆㅇㅈㅊㅋㅌㅍㅎ";

fn chars(s: &str) -> Vec<char> {
    s.chars().collect()
}

#[test]
fn jamo_come_from_the_compatibility_block() {
    let onsets: Vec<u32> = ONSETS.chars().map(|c| c as u32).collect();
    assert_eq!(
        onsets,
        vec![
            0x3131, 0x3132, 0x3134, 0x3137, 0x3138, 0x3139, 0x3141, 0x3142, 0x3143, 0x3145,
            0x3146, 0x3147, 0x3148, 0x3149, 0x314A, 0x314B, 0x314C, 0x314D, 0x314E
        ]
    );
    let nuclei: Vec<u32> = NUCLEI.chars().map(|c| c as u32).collect();
    assert_eq!(nuclei, (0x314F..=0x3163).collect::<Vec<u32>>());
    let codas: Vec<u32> = CODAS.chars().map(|c| c as u32).collect();
    assert_eq!(
        codas,
        vec![
            0x3131, 0x3132, 0x3133, 0x3134, 0x3135, 0x3136, 0x3137, 0x3139, 0x313A, 0x313B,
            0x313C, 0x313D, 0x313E, 0x313F, 0x3140, 0x3141, 0x3142, 0x3144, 0x3145, 0x3146,
            0x3147, 0x3148, 0x314A, 0x314B, 0x314C, 0x314D, 0x314E
        ]
    );
}

#[test]
fn decompose_ga_gives_giyeok_and_a() {
    assert_eq!(decompose('가'), Some(('ㄱ', 'ㅏ', None)));
    assert_eq!(compose('ㄱ', 'ㅏ', None), Some('가'));
}

#[test]
fn decompose_with_coda() {
    assert_eq!(decompose('한'), Some(('ㅎ', 'ㅏ', Some('ㄴ'))));
    assert_eq!(decompose('갅'), Some(('ㄱ', 'ㅏ', Some('ㄵ'))));
    assert_eq!(decompose('밮'), Some(('ㅂ', 'ㅏ', Some('ㅍ'))));
    assert_eq!(decompose('힣'), Some(('ㅎ', 'ㅣ', Some('ㅎ'))));
}

#[test]
fn decompose_follows_the_block_arithmetic() {
    let onsets = chars(ONSETS);
    let nuclei = chars(NUCLEI);
    let codas = chars(CODAS);
    assert_eq!(onsets.len(), 19);
    assert_eq!(nuclei.len(), 21);
    assert_eq!(codas.len(), 27);
    for code in 0xAC00u32..=0xD7A3u32 {
        let s = char::from_u32(code).unwrap();
        let v = (code - 0xAC00) as usize;
        let coda = if v % 28 == 0 { None } else { Some(codas[v % 28 - 1]) };
        assert_eq!(decompose(s), Some((onsets[v / 588], nuclei[(v % 588) / 28], coda)));
    }
}

#[test]
fn compose_follows_the_block_arithmetic() {
    let onsets = chars(ONSETS);
    let nuclei = chars(NUCLEI);
    let codas = chars(CODAS);
    for (i, o) in onsets.iter().enumerate() {
        for (j, n) in nuclei.iter().enumerate() {
            let base = 0xAC00 + 588 * i as u32 + 28 * j as u32;
            assert_eq!(compose(*o, *n, None), char::from_u32(base));
            for (k, c) in codas.iter().enumerate() {
                assert_eq!(compose(*o, *n, Some(*c)), char::from_u32(base + k as u32 + 1));
            }
        }
    }
}

#[test]
fn every_syllable_survives_the_round_trip() {
    for code in 0xAC00u32..=0xD7A3u32 {
        let s = char::from_u32(code).unwrap();
        let (o, n, c) = decompose(s).unwrap();
        assert_eq!(compose(o, n, c), Some(s));
    }
}

#[test]
fn every_triple_survives_the_round_trip() {
    let mut codas: Vec<Option<char>> = vec![None];
    for c in CODAS.chars() {
        codas.push(Some(c));
    }
    let mut seen = 0;
    for o in ONSETS.chars() {
        for n in NUCLEI.chars() {
            for c in codas.iter() {
                let s = compose(o, n, *c).unwrap();
                assert_eq!(decompose(s), Some((o, n, *c)));
                seen += 1;
            }
        }
    }
    assert_eq!(seen, 11172);
}

#[test]
fn decompose_rejects_what_is_no_syllable() {
    assert_eq!(decompose('a'), None);
    assert_eq!(decompose('!'), None);
    assert_eq!(decompose('ㄱ'), None);
    assert_eq!(decompose('ㅏ'), None);
    assert_eq!(decompose('\u{ABFF}'), None);
    assert_eq!(decompose('\u{D7A4}'), None);
    assert_eq!(decompose('何'), None);
}

#[test]
fn compose_rejects_an_invalid_pair() {
    assert_eq!(compose('a', 'ㅏ', None), None);
    assert_eq!(compose('ㄱ', 'ㄱ', None), None);
    assert_eq!(compose('ㅏ', 'ㅏ', None), None);
    assert_eq!(compose('ㄳ', 'ㅏ', None), None);
    assert_eq!(compose('\u{1113}', 'ㅏ', None), None);
    assert_eq!(compose('ㄱ', '\u{1176}', None), None);
}

#[test]
fn compose_reads_a_syllable_as_its_own_part() {
    assert_eq!(compose('가', 'ㅏ', None), Some('가'));
    assert_eq!(compose('한', '네', Some('강')), char::from_u32(0xAC00 + 18 * 588 + 5 * 28 + 21));
    assert_eq!(compose('ㄱ', 'ㅏ', Some('가')), Some('가'));
    assert_eq!(compose('ㄱ', 'ㅏ', Some('힣')), Some('갛'));
}

#[test]
fn compose_takes_conjoining_jamo_too() {
    assert_eq!(compose('\u{1100}', '\u{1161}', None), Some('가'));
    assert_eq!(compose('\u{1112}', '\u{1161}', Some('\u{11AB}')), Some('한'));
    assert_eq!(compose('\u{1112}', '\u{1175}', Some('\u{11C2}')), Some('힣'));
}

#[test]
fn compose_counts_an_unknown_coda_as_none() {
    assert_eq!(compose('ㄱ', 'ㅏ', Some('a')), Some('가'));
    assert_eq!(compose('ㄱ', 'ㅏ', Some('ㅏ')), Some('가'));
    assert_eq!(compose('ㄱ', 'ㅏ', Some('ㄸ')), Some('가'));
}

#[test]
fn is_syllable_at_the_block_edges() {
    assert!(is_syllable('가'));
    assert!(is_syllable('힣'));
    assert!(!is_syllable('\u{ABFF}'));
    assert!(!is_syllable('\u{D7A4}'));
    assert!(!is_syllable('ㄱ'));
    assert!(!is_syllable('z'));
}

#[test]
fn disassemble_char_falls_back_to_the_bare_character() {
    assert_eq!(disassemble_char('!'), Jamo { onset: '!', nucleus: None, coda: None });
    assert_eq!(disassemble_char('ㄱ'), Jamo { onset: 'ㄱ', nucleus: None, coda: None });
    assert_eq!(
        disassemble_char('녕'),
        Jamo { onset: 'ㄴ', nucleus: Some('ㅕ'), coda: Some('ㅇ') }
    );
    assert!(disassemble_char('녕').is_complete());
    assert!(!disassemble_char('ㄱ').is_complete());
}

#[test]
fn assemble_char_falls_back_to_the_onset() {
    assert_eq!(assemble_char(Jamo { onset: 'x', nucleus: None, coda: None }), 'x');
    assert_eq!(assemble_char(Jamo { onset: 'x', nucleus: Some('ㅏ'), coda: None }), 'x');
    assert_eq!(assemble_char(Jamo { onset: 'ㄱ', nucleus: Some('x'), coda: None }), 'ㄱ');
    assert_eq!(assemble_char(Jamo { onset: 'ㄱ', nucleus: Some('ㅏ'), coda: None }), '가');
    assert_eq!(assemble_char(Jamo { onset: 'ㄱ', nucleus: Some('ㅏ'), coda: Some('ㄴ') }), '간');
}

#[test]
fn a_mixed_text_survives_the_stream() {
    let text = chars("안녕하세요ㄱㄱaa! 돼지");
    let stream = disassemble(&text);
    assert_eq!(stream.len(), text.len());
    assert_eq!(stream[0], Jamo { onset: 'ㅇ', nucleus: Some('ㅏ'), coda: Some('ㄴ') });
    assert_eq!(stream[5], Jamo { onset: 'ㄱ', nucleus: None, coda: None });
    assert_eq!(assemble(&stream), text);
    assert_eq!(assemble(&disassemble(&Vec::new())), Vec::<char>::new());
}

#[test]
fn jamo_len_counts_units() {
    assert_eq!(jamo_len(&chars("")), 0);
    assert_eq!(jamo_len(&chars("가")), 2);
    assert_eq!(jamo_len(&chars("안")), 3);
    assert_eq!(jamo_len(&chars("안녕")), 6);
    assert_eq!(jamo_len(&chars("안녕하")), 8);
    assert_eq!(jamo_len(&chars("a가")), 3);
}

const ONSET_CODES: [u32; 19] = [
    0x3131, 0x3132, 0x3134, 0x3137, 0x3138, 0x3139, 0x3141, 0x3142, 0x3143, 0x3145, 0x3146,
    0x3147, 0x3148, 0x3149, 0x314A, 0x314B, 0x314C, 0x314D, 0x314E,
];

const CODA_CODES: [u32; 27] = [
    0x3131, 0x3132, 0x3133, 0x3134, 0x3135, 0x3136, 0x3137, 0x3139, 0x313A, 0x313B, 0x313C,
    0x313D, 0x313E, 0x313F, 0x3140, 0x3141, 0x3142, 0x3144, 0x3145, 0x3146, 0x3147, 0x3148,
    0x314A, 0x314B, 0x314C, 0x314D, 0x314E,
];

fn probes() -> Vec<char> {
    (0u32..0x3400)
        .chain(0xABF0..0xD7C0)
        .chain(0xFFF0..0x10010)
        .chain(0x10FFF0..0x110000)
        .filter_map(char::from_u32)
        .collect()
}

fn onset_index(c: char) -> Option<u32> {
    let u = c as u32;
    if (0xAC00..=0xD7A3).contains(&u) {
        Some((u - 0xAC00) / 588)
    } else if (0x1100..=0x1112).contains(&u) {
        Some(u - 0x1100)
    } else {
        ONSET_CODES.iter().position(|x| *x == u).map(|i| i as u32)
    }
}

fn nucleus_index(c: char) -> Option<u32> {
    let u = c as u32;
    if (0xAC00..=0xD7A3).contains(&u) {
        Some(((u - 0xAC00) % 588) / 28)
    } else if (0x1161..=0x1175).contains(&u) {
        Some(u - 0x1161)
    } else if (0x314F..=0x3163).contains(&u) {
        Some(u - 0x314F)
    } else {
        None
    }
}

fn coda_index(c: char) -> u32 {
    let u = c as u32;
    if (0xAC00..=0xD7A3).contains(&u) {
        (u - 0xAC00) % 28
    } else if (0x11A8..=0x11C2).contains(&u) {
        u - 0x11A8 + 1
    } else {
        CODA_CODES.iter().position(|x| *x == u).map(|i| i as u32 + 1).unwrap_or(0)
    }
}

#[test]
fn compose_recognises_exactly_the_onsets_it_should() {
    for c in probes() {
        let expected = onset_index(c).and_then(|i| char::from_u32(0xAC00 + 588 * i + 28 * 3 + 4));
        assert_eq!(compose(c, 'ㅒ', Some('ㄴ')), expected);
    }
}

#[test]
fn compose_recognises_exactly_the_nuclei_it_should() {
    for c in probes() {
        let expected = nucleus_index(c).and_then(|j| char::from_u32(0xAC00 + 588 * 2 + 28 * j));
        assert_eq!(compose('ㄴ', c, None), expected);
    }
}

#[test]
fn compose_recognises_exactly_the_codas_it_should() {
    for c in probes() {
        let expected = char::from_u32(0xAC00 + 588 * 18 + 28 * 20 + coda_index(c));
        assert_eq!(compose('ㅎ', 'ㅣ', Some(c)), expected);
    }
}

#[test]
fn decompose_answers_exactly_inside_the_block() {
    for c in probes() {
        assert_eq!(decompose(c).is_some(), (0xAC00..=0xD7A3).contains(&(c as u32)));
        assert_eq!(is_syllable(c), (0xAC00..=0xD7A3).contains(&(c as u32)));
    }
}
