use smartcut_core::series::{of, shared};


/// The four ways a broadcast writes an episode number, and the marks and
/// the block name around them.
#[test]
fn takes_the_episode_off() {
    assert_eq!(
        of("[字]アニメA・星降る夜の郵便局　＃03「初めての配達」"),
        "星降る夜の郵便局"
    );
    assert_eq!(of("＜アニメギルド＞灯台守の休日　#4"), "灯台守の休日");
    assert_eq!(of("アニメ　鉄塔のある街　第１０話"), "鉄塔のある街");
    assert_eq!(
        of("霧の中の図書館（３２）迷子の栞[解][字]"),
        "霧の中の図書館"
    );
    assert_eq!(of("風待ちの丘 ep．６「約束」"), "風待ちの丘");
    assert_eq!(
        of("四畳半ものがたり　42話「引っ越し」[字]"),
        "四畳半ものがたり"
    );
    assert_eq!(of("砂の音　最終話「さよなら」[終]"), "砂の音");
    assert_eq!(of("硝子の塔　ＥＰＩＳＯＤＥ　２４"), "硝子の塔");
}

/// The season is the series' name and stays; the episode inside the
/// season still goes.
#[test]
fn keeps_the_season() {
    assert_eq!(
        of("砂時計の向こう側 第2期　第27話「最後の一粒」"),
        "砂時計の向こう側 第2期"
    );
    assert_eq!(of("渡り鳥食堂 Season1#16-17"), "渡り鳥食堂 Season1");
    assert_eq!(
        of("やり直しの街(2nd season)#3-4"),
        "やり直しの街(2nd season)"
    );
}

/// A name with nothing in it to cut comes through as it is -- including
/// the punctuation a rule that went looking for labels would eat.
#[test]
fn leaves_a_plain_name_alone() {
    assert_eq!(of("名もなき午後"), "名もなき午後");
    assert_eq!(of("硝子の塔-終幕-　第7幕"), "硝子の塔-終幕-");
    assert_eq!(of("アニメーションの作り方"), "アニメーションの作り方");
    assert_eq!(of("うたたねラジオ「ゲストは誰？」"), "うたたねラジオ");
    assert_eq!(of("「約束」"), "「約束」");
    assert_eq!(of(""), "");
}

/// What a disc of them is called.
#[test]
fn shares_a_name() {
    let run = ["星降る夜の郵便局 #1 [字]", "星降る夜の郵便局 #2 [字]"];
    assert_eq!(shared(&run).as_deref(), Some("星降る夜の郵便局"));
    // One recording is a run of one.
    assert_eq!(
        shared(&["灯台守の休日　#4"]).as_deref(),
        Some("灯台守の休日")
    );
}

/// And when they do not agree, nothing -- so that the caller can say the
/// one true thing about a mixture, which is when it was made. A season
/// boundary is a disagreement like any other: the season is part of the
/// name.
#[test]
fn says_nothing_for_a_mixture() {
    assert_eq!(shared(&["硝子の塔 #1", "名もなき午後"]), None);
    assert_eq!(
        shared(&["渡り鳥食堂 Season1#16", "渡り鳥食堂 Season2#3"]),
        None
    );
    assert_eq!(shared(&["風待ちの丘Ⅱ #1", "風待ちの丘Ⅲ #2"]), None);
    assert_eq!(shared(&[]), None);
    assert_eq!(shared(&[""]), None);
}

/// A name that is all label keeps the name it came with.
#[test]
fn a_name_is_never_lost() {
    assert_eq!(of("[字]"), "[字]");
    assert_eq!(of("#1"), "#1");
    // Nothing is left of these once they are tidied, so they stay.
    assert_eq!(of("　・ "), "　・ ");
    assert_eq!(of("・"), "・");
    assert_eq!(of("　"), "　");
    // Tidied where that leaves something.
    assert_eq!(of("　[字] "), "[字]");
    assert_eq!(of(""), "");
}

#[test]
fn a_long_bracket_is_part_of_the_name() {
    assert_eq!(of("[123456789]夜"), "[123456789]夜");
    assert_eq!(of("[12345678]夜"), "夜");
    assert_eq!(of("【アニメの時間】夜"), "夜");
    assert_eq!(of("夜【"), "夜【");
}
