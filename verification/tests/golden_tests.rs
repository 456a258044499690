use wu_diff::DiffResult;
use wu_diff::diff;

/// Each case gives the two inputs as digit strings and the expected kinds
/// of the script entries in order: R for Removed, C for Common, A for
/// Added.  Together with the index and data checks of the other tests this
/// pins the exact script, tie-breaks included.
const CASES: &[(&str, &str, &str)] = &[
    ("", "", ""),
    ("", "0", "A"),
    ("", "1", "A"),
    ("", "00", "AA"),
    ("", "01", "AA"),
    ("", "10", "AA"),
    ("", "11", "AA"),
    ("", "000", "AAA"),
    ("", "001", "AAA"),
    ("", "010", "AAA"),
    ("", "011", "AAA"),
    ("", "100", "AAA"),
    ("", "101", "AAA"),
    ("", "110", "AAA"),
    ("", "111", "AAA"),
    ("0", "", "R"),
    ("1", "", "R"),
    ("0", "0", "C"),
    ("0", "1", "RA"),
    ("1", "0", "RA"),
    ("1", "1", "C"),
    ("0", "00", "CA"),
    ("0", "01", "CA"),
    ("0", "10", "AC"),
    ("0", "11", "AAR"),
    ("1", "00", "AAR"),
    ("1", "01", "AC"),
    ("1", "10", "CA"),
    ("1", "11", "CA"),
    ("0", "000", "CAA"),
    ("0", "001", "CAA"),
    ("0", "010", "CAA"),
    ("0", "011", "CAA"),
    ("0", "100", "AAC"),
    ("0", "101", "ACA"),
    ("0", "110", "AAC"),
    ("0", "111", "AAAR"),
    ("1", "000", "AAAR"),
    ("1", "001", "AAC"),
    ("1", "010", "ACA"),
    ("1", "011", "AAC"),
    ("1", "100", "CAA"),
    ("1", "101", "CAA"),
    ("1", "110", "CAA"),
    ("1", "111", "CAA"),
    ("00", "", "RR"),
    ("01", "", "RR"),
    ("10", "", "RR"),
    ("11", "", "RR"),
    ("00", "0", "CR"),
    ("00", "1", "RRA"),
    ("01", "0", "CR"),
    ("01", "1", "RC"),
    ("10", "0", "RC"),
    ("10", "1", "CR"),
    ("11", "0", "RRA"),
    ("11", "1", "CR"),
    ("00", "00", "CC"),
    ("00", "01", "CRA"),
    ("00", "10", "RAC"),
    ("00", "11", "RRAA"),
    ("01", "00", "CRA"),
    ("01", "01", "CC"),
    ("01", "10", "RCA"),
    ("01", "11", "RAC"),
    ("10", "00", "RAC"),
    ("10", "01", "RCA"),
    ("10", "10", "CC"),
    ("10", "11", "CRA"),
    ("11", "00", "RRAA"),
    ("11", "01", "RAC"),
    ("11", "10", "CRA"),
    ("11", "11", "CC"),
    ("00", "000", "CCA"),
    ("00", "001", "CCA"),
    ("00", "010", "CAC"),
    ("00", "011", "CAAR"),
    ("00", "100", "ACC"),
    ("00", "101", "ACAR"),
    ("00", "110", "AARC"),
    ("00", "111", "AAARR"),
    ("01", "000", "CAAR"),
    ("01", "001", "CAC"),
    ("01", "010", "CCA"),
    ("01", "011", "CCA"),
    ("01", "100", "ACAR"),
    ("01", "101", "ACC"),
    ("01", "110", "AACR"),
    ("01", "111", "AARC"),
    ("10", "000", "AARC"),
    ("10", "001", "AACR"),
    ("10", "010", "ACC"),
    ("10", "011", "ACAR"),
    ("10", "100", "CCA"),
    ("10", "101", "CCA"),
    ("10", "110", "CAC"),
    ("10", "111", "CAAR"),
    ("11", "000", "AAARR"),
    ("11", "001", "AARC"),
    ("11", "010", "ACAR"),
    ("11", "011", "ACC"),
    ("11", "100", "CAAR"),
    ("11", "101", "CAC"),
    ("11", "110", "CCA"),
    ("11", "111", "CCA"),
    ("000", "", "RRR"),
    ("001", "", "RRR"),
    ("010", "", "RRR"),
    ("011", "", "RRR"),
    ("100", "", "RRR"),
    ("101", "", "RRR"),
    ("110", "", "RRR"),
    ("111", "", "RRR"),
    ("000", "0", "CRR"),
    ("000", "1", "RRRA"),
    ("001", "0", "CRR"),
    ("001", "1", "RRC"),
    ("010", "0", "CRR"),
    ("010", "1", "RCR"),
    ("011", "0", "CRR"),
    ("011", "1", "RRC"),
    ("100", "0", "RRC"),
    ("100", "1", "CRR"),
    ("101", "0", "RCR"),
    ("101", "1", "CRR"),
    ("110", "0", "RRC"),
    ("110", "1", "CRR"),
    ("111", "0", "RRRA"),
    ("111", "1", "CRR"),
    ("000", "00", "CCR"),
    ("000", "01", "CRRA"),
    ("000", "10", "RRAC"),
    ("000", "11", "RRRAA"),
    ("001", "00", "CCR"),
    ("001", "01", "CRC"),
    ("001", "10", "RRCA"),
    ("001", "11", "RRAC"),
    ("010", "00", "CRC"),
    ("010", "01", "CCR"),
    ("010", "10", "RCC"),
    ("010", "11", "RCRA"),
    ("011", "00", "CRRA"),
    ("011", "01", "CCR"),
    ("011", "10", "RCRA"),
    ("011", "11", "RCC"),
    ("100", "00", "RCC"),
    ("100", "01", "RCRA"),
    ("100", "10", "CCR"),
    ("100", "11", "CRRA"),
    ("101", "00", "RCRA"),
    ("101", "01", "RCC"),
    ("101", "10", "CCR"),
    ("101", "11", "CRC"),
    ("110", "00", "RRAC"),
    ("110", "01", "RRCA"),
    ("110", "10", "CRC"),
    ("110", "11", "CCR"),
    ("111", "00", "RRRAA"),
    ("111", "01", "RRAC"),
    ("111", "10", "CRRA"),
    ("111", "11", "CCR"),
    ("000", "000", "CCC"),
    ("000", "001", "CCRA"),
    ("000", "010", "CRAC"),
    ("000", "011", "CRRAA"),
    ("000", "100", "RACC"),
    ("000", "101", "ACRRA"),
    ("000", "110", "RRAAC"),
    ("000", "111", "RRRAAA"),
    ("001", "000", "CCRA"),
    ("001", "001", "CCC"),
    ("001", "010", "CRCA"),
    ("001", "011", "CRAC"),
    ("001", "100", "ACCR"),
    ("001", "101", "RACC"),
    ("001", "110", "RRCAA"),
    ("001", "111", "RRAAC"),
    ("010", "000", "CRAC"),
    ("010", "001", "CRCA"),
    ("010", "010", "CCC"),
    ("010", "011", "CCRA"),
    ("010", "100", "RCAC"),
    ("010", "101", "RCCA"),
    ("010", "110", "RACC"),
    ("010", "111", "RCRAA"),
    ("011", "000", "CRRAA"),
    ("011", "001", "CRAC"),
    ("011", "010", "CCRA"),
    ("011", "011", "CCC"),
    ("011", "100", "RCRAA"),
    ("011", "101", "RCAC"),
    ("011", "110", "RCCA"),
    ("011", "111", "RACC"),
    ("100", "000", "RACC"),
    ("100", "001", "RCCA"),
    ("100", "010", "RCAC"),
    ("100", "011", "RCRAA"),
    ("100", "100", "CCC"),
    ("100", "101", "CCRA"),
    ("100", "110", "CRAC"),
    ("100", "111", "CRRAA"),
    ("101", "000", "RCRAA"),
    ("101", "001", "RACC"),
    ("101", "010", "RCCA"),
    ("101", "011", "RCAC"),
    ("101", "100", "CCRA"),
    ("101", "101", "CCC"),
    ("101", "110", "CRCA"),
    ("101", "111", "CRAC"),
    ("110", "000", "RRAAC"),
    ("110", "001", "RRCAA"),
    ("110", "010", "RACC"),
    ("110", "011", "ACCR"),
    ("110", "100", "CRAC"),
    ("110", "101", "CRCA"),
    ("110", "110", "CCC"),
    ("110", "111", "CCRA"),
    ("111", "000", "RRRAAA"),
    ("111", "001", "RRAAC"),
    ("111", "010", "ACRRA"),
    ("111", "011", "RACC"),
    ("111", "100", "CRRAA"),
    ("111", "101", "CRAC"),
    ("111", "110", "CCRA"),
    ("111", "111", "CCC"),
    ("12002", "01", "RRCRRA"),
    ("", "00011000", "AAAAAAAA"),
    ("02002220", "221000", "RCAACCRRRC"),
    ("11020212", "20", "RRRCCRRR"),
    ("1", "022", "AAAR"),
    ("2", "", "R"),
    ("221", "1121110", "AACRCAAA"),
    ("02", "121", "ARCA"),
    ("12002", "1010110", "CRCACAAAR"),
    ("2", "11212121", "AACAAAAA"),
    ("1", "1", "C"),
    ("2", "", "R"),
    ("1212", "1011020", "CARCAACA"),
    ("0102011", "", "RRRRRRR"),
    ("0112101", "2", "RRRCRRR"),
    ("1210", "000002", "AAAAARCRR"),
    ("120", "", "RRR"),
    ("0012", "1221", "RRCCAA"),
    ("22", "22012211", "CCAAAAAA"),
    ("012100", "001001", "CACRRCCA"),
    ("", "0", "A"),
    ("01", "20002102", "ACAAACAA"),
    ("2110", "01111", "ARCCAAR"),
    ("0021", "2", "RRCR"),
    ("2020", "0210220", "ACACACC"),
    ("20212101", "0222", "RCCRCRRRA"),
    ("20012", "002", "RCCRC"),
    ("2001110", "22112", "CRRACCRRA"),
    ("00001", "01012", "CACRRCA"),
    ("", "2120201", "AAAAAAA"),
    ("012", "1021112", "ACAAACC"),
    ("0", "00", "CA"),
    ("20", "2212102", "CAAAACA"),
    ("00220220", "10", "RRRRRRRAC"),
    ("101", "", "RRR"),
    ("21121002", "112", "RCCRRRRC"),
    ("20202201", "020000", "RCCCRRCRAA"),
    ("2012222", "1", "RRCRRRR"),
    ("0", "00100212", "CAAAAAAA"),
    ("", "1", "A"),
    ("22021", "12212022", "ACCAACCAR"),
    ("0101", "01110201", "CCAAAACC"),
    ("2", "100", "AAAR"),
    ("10102", "01", "RCCRR"),
    ("2002121", "11", "RRRRCRC"),
    ("102", "10121", "CCACA"),
    ("1122120", "", "RRRRRRR"),
    ("0", "011", "CAA"),
    ("", "10", "AA"),
    ("102221", "2101", "ACCRRRC"),
    ("", "10", "AA"),
    ("2010", "", "RRRR"),
    ("101", "0", "RCR"),
    ("11200", "22000100", "AAAAACRRCC"),
    ("212", "0112", "AARCC"),
    ("10", "1000", "CCAA"),
    ("02101022", "12121212", "RACCRACRCAC"),
    ("102", "220", "RRCAA"),
    ("000022", "11000", "AACCCRRR"),
    ("212021", "01001101", "ARCRCAAAARC"),
];

fn kind_string(script: &[DiffResult<u8>]) -> String {
    script
        .iter()
        .map(|d| match d {
            DiffResult::Removed(_) => 'R',
            DiffResult::Common(_) => 'C',
            DiffResult::Added(_) => 'A',
        })
        .collect()
}

#[test]
fn scripts_match_the_recorded_kind_sequences() {
    for (old_text, new_text, expected) in CASES {
        let old: Vec<u8> = old_text.bytes().collect();
        let new: Vec<u8> = new_text.bytes().collect();
        let script = diff(&old, &new);
        assert_eq!(
            kind_string(&script),
            *expected,
            "inputs {:?} / {:?}",
            old_text,
            new_text
        );
    }
}
