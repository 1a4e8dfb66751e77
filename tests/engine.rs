use project_matching::allocate::allocate;
use project_matching::ledger::{MatchStatus, MatchingState, Party};
use project_matching::model::{
    Group, GroupPreferencesResponse, MatchResult, Project, ProjectPreferencesResponse,
};
use project_matching::order::{sort_matches, SortKey};
use project_matching::roster::{
    CreateCompanyRequest, CreateGroupRequest, CreateProjectRequest, Decision,
};
use project_matching::scoring::{rank_score, score_for};
use project_matching::text::text_less;

fn s(x: &str) -> String {
    x.to_string()
}

fn group(email: &str) -> Group {
    Group { name: format!("team {}", email), email: s(email) }
}

fn project(id: &str, company: &str, capacity: u32, active: bool) -> Project {
    Project {
        id: s(id),
        company_email: s(company),
        name: format!("name-{}", id),
        description: None,
        capacity,
        active,
    }
}

fn gpref(email: &str, ids: &[&str]) -> GroupPreferencesResponse {
    GroupPreferencesResponse {
        group_email: s(email),
        project_ids_ranked: ids.iter().map(|x| s(x)).collect(),
    }
}

fn ppref(id: &str, emails: &[&str]) -> ProjectPreferencesResponse {
    ProjectPreferencesResponse {
        project_id: s(id),
        group_emails_ranked: emails.iter().map(|x| s(x)).collect(),
    }
}

fn pairs(v: &[MatchResult]) -> Vec<(String, String)> {
    v.iter().map(|m| (m.group_email.clone(), m.project_id.clone())).collect()
}

/// One company "acme@co" with project "p1", one group "g@x", ranking each other.
fn one_pair_state() -> MatchingState {
    let mut st = MatchingState::new();
    assert!(st.register_company(CreateCompanyRequest { name: s("Acme"), email: s("acme@co"), password: s("pw") }).ok);
    assert!(st.register_group(CreateGroupRequest { name: s("G"), email: s("g@x"), password: s("pw") }).ok);
    assert!(st.add_project(
        &s("acme@co"),
        CreateProjectRequest {
            id: s("p1"),
            company_email: s("acme@co"),
            name: s("Parser"),
            description: None,
            capacity: 1,
            active: true,
        },
    ));
    assert!(st.set_group_preferences(&s("g@x"), vec![s("p1")]));
    assert!(st.set_project_preferences(&s("acme@co"), &s("p1"), vec![s("g@x")]));
    st
}

fn company() -> Party {
    Party::Company(s("acme@co"))
}

fn grp() -> Party {
    Party::Group(s("g@x"))
}

fn target() -> Option<String> {
    Some(s("p1"))
}

#[test]
fn score_formula_values() {
    assert_eq!(rank_score(0, 2), 2);
    assert_eq!(rank_score(1, 2), 12);
    assert_eq!(rank_score(0, 5), 5);
    assert_eq!(rank_score(2, 5), 25);
    assert_eq!(rank_score(3, 5), 40);
    assert_eq!(rank_score(9, 10), 100);
}

#[test]
fn score_lookup_uses_last_listing_and_absent_is_none() {
    let ranked = vec![s("a"), s("b"), s("a"), s("c")];
    assert_eq!(score_for(&ranked, &s("b")), Some(15));
    assert_eq!(score_for(&ranked, &s("a")), Some(25));
    assert_eq!(score_for(&ranked, &s("zz")), None);
    assert_eq!(score_for(&vec![], &s("a")), None);
}

#[test]
fn text_order_is_byte_order() {
    assert!(text_less(&s("a"), &s("b")));
    assert!(!text_less(&s("b"), &s("a")));
    assert!(text_less(&s("ab"), &s("abc")));
    assert!(!text_less(&s("abc"), &s("abc")));
    assert!(text_less(&s("Z"), &s("a")));
    assert!(text_less(&s(""), &s("a")));
}

#[test]
fn sort_by_project_name_is_stable() {
    let m = |g: &str, n: &str| MatchResult {
        group_email: s(g),
        project_id: s("id"),
        project_name: s(n),
        company_email: s("c"),
    };
    let v = vec![m("g1", "b"), m("g2", "a"), m("g3", "b"), m("g4", "a")];
    let r = sort_matches(&v, SortKey::ProjectName);
    let groups: Vec<String> = r.iter().map(|x| x.group_email.clone()).collect();
    assert_eq!(groups, vec![s("g2"), s("g4"), s("g1"), s("g3")]);
}

#[test]
fn higher_ranked_group_wins_the_project() {
    let groups = vec![group("g1@x"), group("g2@x")];
    let projects = vec![project("P", "c@co", 1, true)];
    let gp = vec![gpref("g1@x", &["P"]), gpref("g2@x", &["P"])];
    let pp = vec![ppref("P", &["g1@x", "g2@x"])];
    let r = allocate(&groups, &projects, &gp, &pp);
    // g1 scores 2 and holds P; g2 (score 12) is left over and falls back to
    // the project that scores it best, which is P again.
    assert_eq!(pairs(&r), vec![(s("g1@x"), s("P")), (s("g2@x"), s("P"))]);
    assert_eq!(r[0].project_name, s("name-P"));
    assert_eq!(r[0].company_email, s("c@co"));
}

#[test]
fn better_proposer_evicts_holder() {
    // g1 proposes first and holds P until g2, which P ranks higher, evicts it;
    // g1 then moves on to Q.
    let groups = vec![group("g1@x"), group("g2@x")];
    let projects = vec![project("P", "c@co", 1, true), project("Q", "c@co", 1, true)];
    let gp = vec![gpref("g1@x", &["P", "Q"]), gpref("g2@x", &["P"])];
    let pp = vec![ppref("P", &["g2@x", "g1@x"]), ppref("Q", &["g1@x"])];
    let r = allocate(&groups, &projects, &gp, &pp);
    assert_eq!(pairs(&r), vec![(s("g1@x"), s("Q")), (s("g2@x"), s("P"))]);
}

#[test]
fn every_group_is_assigned_and_once() {
    let groups = vec![group("d@x"), group("a@x"), group("c@x"), group("b@x")];
    let projects = vec![
        project("P", "c@co", 1, true),
        project("Q", "c@co", 2, true),
        project("R", "c@co", 1, false),
    ];
    let gp = vec![
        gpref("a@x", &["P", "Q"]),
        gpref("b@x", &["P"]),
        gpref("c@x", &["R", "Q"]),
        gpref("d@x", &[]),
    ];
    let pp = vec![ppref("P", &["b@x", "a@x"]), ppref("Q", &["a@x", "c@x"]), ppref("R", &["c@x"])];
    let r = allocate(&groups, &projects, &gp, &pp);
    let emails: Vec<String> = r.iter().map(|m| m.group_email.clone()).collect();
    assert_eq!(emails, vec![s("a@x"), s("b@x"), s("c@x"), s("d@x")]);
    assert_eq!(
        pairs(&r),
        vec![(s("a@x"), s("Q")), (s("b@x"), s("P")), (s("c@x"), s("Q")), (s("d@x"), s("R"))]
    );
}

#[test]
fn allocation_is_deterministic() {
    let groups = vec![group("b@x"), group("a@x"), group("c@x")];
    let projects = vec![project("P", "c@co", 1, true), project("Q", "c@co", 1, true)];
    let gp = vec![gpref("a@x", &["Q", "P"]), gpref("b@x", &["Q"]), gpref("c@x", &["P"])];
    let pp = vec![ppref("P", &["c@x", "a@x"]), ppref("Q", &["b@x", "a@x"])];
    let r1 = allocate(&groups, &projects, &gp, &pp);
    let r2 = allocate(&groups, &projects, &gp, &pp);
    assert_eq!(pairs(&r1), pairs(&r2));
    for w in r1.windows(2) {
        assert!(w[0].group_email <= w[1].group_email);
    }
}

#[test]
fn no_groups_or_no_projects_gives_nothing() {
    let projects = vec![project("P", "c@co", 1, true)];
    assert!(allocate(&vec![], &projects, &vec![], &vec![]).is_empty());
    assert!(allocate(&vec![group("a@x")], &vec![], &vec![], &vec![]).is_empty());
}

#[test]
fn unranked_group_falls_back_to_first_project() {
    let groups = vec![group("a@x"), group("b@x")];
    let projects = vec![project("P", "c@co", 1, true), project("Q", "c@co", 1, true)];
    let gp = vec![gpref("a@x", &["P"]), gpref("b@x", &["P"])];
    let pp = vec![ppref("P", &["a@x"])];
    let r = allocate(&groups, &projects, &gp, &pp);
    // b is unmatched and takes the free project Q.
    assert_eq!(pairs(&r), vec![(s("a@x"), s("P")), (s("b@x"), s("Q"))]);
    let groups3 = vec![group("a@x"), group("b@x"), group("c@x")];
    let r3 = allocate(&groups3, &projects, &gp, &pp);
    // c has no score anywhere and no free project is left: the first project.
    assert_eq!(pairs(&r3), vec![(s("a@x"), s("P")), (s("b@x"), s("Q")), (s("c@x"), s("P"))]);
}

#[test]
fn zero_capacity_is_raised_to_one() {
    let p = Project::from_request(CreateProjectRequest {
        id: s("p"),
        company_email: s("c@co"),
        name: s("n"),
        description: Some(s("d")),
        capacity: 0,
        active: true,
    });
    assert_eq!(p.capacity, 1);
    let q = Project::from_request(CreateProjectRequest {
        id: s("q"),
        company_email: s("c@co"),
        name: s("n"),
        description: None,
        capacity: 3,
        active: false,
    });
    assert_eq!(q.capacity, 3);
    let groups = vec![group("a@x")];
    let gp = vec![gpref("a@x", &["p"])];
    let pp = vec![ppref("p", &["a@x"])];
    let r = allocate(&groups, &vec![p], &gp, &pp);
    assert_eq!(pairs(&r), vec![(s("a@x"), s("p"))]);
}

#[test]
fn round_controller_transitions() {
    let mut st = MatchingState::new();
    let r0 = st.round_status();
    assert_eq!((r0.round_number, r0.round_open), (0, false));
    st.start_round();
    let r1 = st.round_status();
    assert_eq!((r1.round_number, r1.round_open), (1, true));
    st.start_round();
    assert_eq!(st.round_status().round_number, 2);
    st.close_round();
    st.close_round();
    assert!(!st.round_status().round_open);
}

#[test]
fn double_accept_finalizes_and_hides_pair() {
    let mut st = one_pair_state();
    st.start_round();
    assert_eq!((st.round_number, st.round_open), (1, true));
    assert!(st.accept(&company(), &target()));
    let vc = st.visible_matches_for(&company());
    assert_eq!(vc.len(), 1);
    assert_eq!(vc[0].status, MatchStatus::AcceptedByMe);
    let vg = st.visible_matches_for(&grp());
    assert_eq!(vg.len(), 1);
    assert_eq!(vg[0].status, MatchStatus::AcceptedByOther);
    assert_eq!(vg[0].to_response().status, Some(s("accepted_by_other")));
    assert!(st.accept(&grp(), &None));
    assert_eq!(st.accepted_matches.len(), 1);
    assert_eq!(st.accepted_matches[0].group_email, s("g@x"));
    assert!(st.visible_matches_for(&company()).is_empty());
    assert!(st.visible_matches_for(&grp()).is_empty());
    st.close_round();
    st.start_round();
    assert_eq!(st.round_number, 2);
    assert!(st.visible_matches_for(&company()).is_empty());
    assert!(st.visible_matches_for(&grp()).is_empty());
    assert!(!st.accept(&grp(), &None));
    assert_eq!(st.accepted_matches.len(), 1);
}

#[test]
fn rejection_is_permanent_across_rounds() {
    let mut st = one_pair_state();
    st.start_round();
    let before = pairs(&st.compute_tentative_matches());
    assert!(st.reject(&grp(), &None));
    assert_eq!(st.rejected_pairs.len(), 1);
    assert_eq!(st.rejected_pairs[0].group_email, s("g@x"));
    assert_eq!(st.match_decisions.len(), 1);
    assert_eq!(st.match_decisions[0].round_number, 1);
    assert_eq!(st.match_decisions[0].company_email, s("acme@co"));
    assert!(!st.match_decisions[0].accepted_by_group);
    assert!(st.accepted_matches.is_empty());
    assert_eq!(pairs(&st.compute_tentative_matches()), before);
    assert_eq!(st.rejected_pairs[0].project_id, s("p1"));
    assert!(st.match_decisions[0].rejected_by_group);
    st.close_round();
    st.start_round();
    // The allocator still proposes the pair; the views filter it out.
    assert_eq!(pairs(&st.compute_tentative_matches()), vec![(s("g@x"), s("p1"))]);
    assert!(st.visible_matches_for(&grp()).is_empty());
    assert!(st.visible_matches_for(&company()).is_empty());
    assert!(!st.reject(&grp(), &None));
    assert!(!st.reject(&company(), &target()));
    assert_eq!(st.rejected_pairs.len(), 1);
}

#[test]
fn acceptance_is_scoped_to_its_round() {
    let mut st = one_pair_state();
    st.start_round();
    assert!(st.accept(&company(), &target()));
    st.start_round();
    let vg = st.visible_matches_for(&grp());
    assert_eq!(vg.len(), 1);
    assert_eq!(vg[0].status, MatchStatus::Pending);
    assert!(st.accept(&grp(), &None));
    assert!(st.accepted_matches.is_empty());
    assert_eq!(st.visible_matches_for(&company())[0].status, MatchStatus::AcceptedByOther);
}

#[test]
fn reaccepting_is_a_no_op_success() {
    let mut st = one_pair_state();
    st.start_round();
    assert!(st.accept(&company(), &target()));
    assert!(st.accept(&company(), &target()));
    assert_eq!(st.match_decisions.len(), 1);
    assert!(st.accepted_matches.is_empty());
}

#[test]
fn decisions_fail_when_closed_or_without_candidate() {
    let mut st = one_pair_state();
    assert!(!st.accept(&grp(), &None));
    assert!(!st.reject(&company(), &target()));
    st.start_round();
    assert!(!st.accept(&company(), &None));
    assert!(!st.accept(&company(), &Some(s(""))));
    assert!(!st.accept(&company(), &Some(s("nope"))));
    assert!(!st.accept(&Party::Group(s("stranger@x")), &None));
    assert!(!st.accept(&Party::Company(s("other@co")), &target()));
    assert!(st.match_decisions.is_empty());
    assert!(st.decide(&company(), Decision::Accept, &target()));
    assert!(st.decide(&grp(), Decision::Accept, &None));
    assert_eq!(st.accepted_matches.len(), 1);
}

#[test]
fn registration_and_preferences() {
    let mut st = one_pair_state();
    let dup = st.register_group(CreateGroupRequest { name: s("G2"), email: s("g@x"), password: s("x") });
    assert!(!dup.ok);
    assert_eq!(dup.message, s("Group with this email already exists"));
    assert!(!st.register_company(CreateCompanyRequest { name: s("A"), email: s("acme@co"), password: s("x") }).ok);
    assert!(!st.add_project(
        &s("acme@co"),
        CreateProjectRequest { id: s("p1"), company_email: s("acme@co"), name: s("x"), description: None, capacity: 1, active: true },
    ));
    assert!(!st.add_project(
        &s("ghost@co"),
        CreateProjectRequest { id: s("p9"), company_email: s("ghost@co"), name: s("x"), description: None, capacity: 1, active: true },
    ));
    assert!(!st.set_group_preferences(&s("nobody@x"), vec![s("p1")]));
    assert!(!st.set_project_preferences(&s("other@co"), &s("p1"), vec![]));
    assert!(st.set_group_preferences(&s("g@x"), vec![s("p2"), s("p1")]));
    assert_eq!(st.group_prefs.len(), 1);
    assert_eq!(st.group_prefs[0].project_ids_ranked, vec![s("p2"), s("p1")]);
}

#[test]
fn score_of_the_largest_position_fits() {
    let big = (usize::MAX as u128 + 1) * 10;
    assert_eq!(rank_score(usize::MAX, usize::MAX), big);
    assert_eq!(rank_score(2, 1), 22);
}

#[test]
fn added_project_with_zero_capacity_gets_one() {
    let mut st = MatchingState::new();
    assert!(st.register_company(CreateCompanyRequest { name: s("A"), email: s("a@co"), password: s("pw") }).ok);
    assert!(st.add_project(
        &s("a@co"),
        CreateProjectRequest { id: s("z"), company_email: s("a@co"), name: s("Z"), description: None, capacity: 0, active: true },
    ));
    assert_eq!(st.projects.len(), 1);
    assert_eq!(st.projects[0].capacity, 1);
}

#[test]
fn capacity_two_holds_two_groups() {
    let groups = vec![group("a@x"), group("b@x"), group("c@x")];
    let projects = vec![project("P", "c@co", 2, true), project("Q", "c@co", 1, true)];
    let gp = vec![gpref("a@x", &["P"]), gpref("b@x", &["P"]), gpref("c@x", &["P", "Q"])];
    let pp = vec![ppref("P", &["c@x", "b@x", "a@x"]), ppref("Q", &["c@x"])];
    let r = allocate(&groups, &projects, &gp, &pp);
    // a is evicted by c, finds nothing else, and takes the free project Q.
    assert_eq!(pairs(&r), vec![(s("a@x"), s("Q")), (s("b@x"), s("P")), (s("c@x"), s("P"))]);
}

#[test]
fn company_sees_all_its_pairs_by_project_name() {
    let mut st = MatchingState::new();
    assert!(st.register_company(CreateCompanyRequest { name: s("A"), email: s("a@co"), password: s("pw") }).ok);
    for (id, name) in [("p1", "Zeta"), ("p2", "Alpha")] {
        assert!(st.add_project(
            &s("a@co"),
            CreateProjectRequest { id: s(id), company_email: s("a@co"), name: s(name), description: None, capacity: 1, active: true },
        ));
    }
    for g in ["g1@x", "g2@x"] {
        assert!(st.register_group(CreateGroupRequest { name: s(g), email: s(g), password: s("pw") }).ok);
    }
    assert!(st.set_group_preferences(&s("g1@x"), vec![s("p1")]));
    assert!(st.set_group_preferences(&s("g2@x"), vec![s("p2")]));
    assert!(st.set_project_preferences(&s("a@co"), &s("p1"), vec![s("g1@x")]));
    assert!(st.set_project_preferences(&s("a@co"), &s("p2"), vec![s("g2@x")]));
    let v = st.visible_matches_for(&Party::Company(s("a@co")));
    let names: Vec<String> = v.iter().map(|m| m.tentative.project_name.clone()).collect();
    assert_eq!(names, vec![s("Alpha"), s("Zeta")]);
    assert!(v.iter().all(|m| m.status == MatchStatus::Pending));
    assert_eq!(v[0].to_response().status, Some(s("pending")));
    assert_eq!(st.visible_matches_for(&Party::Group(s("g1@x"))).len(), 1);
}

#[test]
fn registration_messages() {
    let mut st = MatchingState::new();
    let g = st.register_group(CreateGroupRequest { name: s("G"), email: s("g@x"), password: s("pw") });
    assert!(g.ok);
    assert_eq!(g.message, s("Group created successfully"));
    let c = st.register_company(CreateCompanyRequest { name: s("C"), email: s("c@co"), password: s("pw") });
    assert!(c.ok);
    assert_eq!(c.message, s("Company created successfully"));
    let c2 = st.register_company(CreateCompanyRequest { name: s("C2"), email: s("c@co"), password: s("pw") });
    assert!(!c2.ok);
    assert_eq!(c2.message, s("Company with this email already exists"));
    assert_eq!(st.companies.len(), 1);
}
