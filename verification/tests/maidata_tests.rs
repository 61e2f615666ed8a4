use maimai_player::maidata::parse;

fn text_of(v: &[char]) -> String {
    v.iter().collect()
}

const SAMPLE: &str = "&title=Xaleid◆scopiX\n&wholebpm=180\n&lv_4=13.7\n&des_4=someone\n&first=0\n\n&inote_4=\n(120){8}4,4,6,6,\n\n1bh[1:2],\nE\n&lv_2=7.9\n&inote_2=(120)1,\n2,\n&title=Later\n";

#[test]
fn header_values_and_later_key_wins() {
    let md = parse(SAMPLE);
    assert_eq!(md.title(), "Later");
    assert_eq!(md.whole_bpm().map(|v| text_of(&v)), Some("180".to_string()));
}

#[test]
fn chart_blocks_end_at_e_or_next_key() {
    let md = parse(SAMPLE);
    assert!(md.wf_check());
    let c4: Vec<String> = md.chart(4).unwrap().iter().map(|l| text_of(l)).collect();
    assert_eq!(c4, vec!["(120){8}4,4,6,6,".to_string(), "1bh[1:2],".to_string()]);
    let c2: Vec<String> = md.chart(2).unwrap().iter().map(|l| text_of(l)).collect();
    assert_eq!(c2, vec!["(120)1,".to_string(), "2,".to_string()]);
    assert!(md.chart(5).is_none());
}

#[test]
fn difficulties_in_order() {
    let md = parse(SAMPLE);
    let d = md.difficulties();
    assert_eq!(d.len(), 6);
    assert_eq!(d.iter().map(|x| x.index).collect::<Vec<_>>(), vec![1, 2, 3, 4, 5, 6]);
    assert_eq!(d.iter().map(|x| x.name).collect::<Vec<_>>(), vec!["EZ", "STD", "HRD", "MAST", "REIM", "UPR"]);
    assert_eq!(d.iter().map(|x| x.present).collect::<Vec<_>>(), vec![false, true, false, true, false, false]);
    assert_eq!(d[3].level, "13.7");
    assert_eq!(d[3].charter, "someone");
    assert_eq!(d[1].level, "7.9");
    assert_eq!(d[0].level, "");
}

#[test]
fn whole_bpm_must_be_a_number() {
    let md = parse("&wholebpm=fast\n");
    assert!(md.whole_bpm().is_none());
    let md2 = parse("&title=x\n");
    assert!(md2.whole_bpm().is_none());
    assert_eq!(md2.title(), "x");
    assert_eq!(parse("").title(), "");
}

#[test]
fn odd_lines() {
    // no `=`: ignored; bad inote index: ignored; lowercase `e` ends a chart;
    // untrimmed measure lines are kept as they are.
    let md = parse("&nokey\n&inote_x=1,\n&inote_300=1,\n  &inote_1=\n  1,  \n e \n3,\n");
    let c1: Vec<String> = md.chart(1).unwrap().iter().map(|l| text_of(l)).collect();
    assert_eq!(c1, vec!["  1,  ".to_string()]);
    assert!(md.meta.is_empty());
}

trait WfCheck {
    fn wf_check(&self) -> bool;
}

impl WfCheck for maimai_player::maidata::Maidata {
    fn wf_check(&self) -> bool {
        self.charts.len() == 256
    }
}
